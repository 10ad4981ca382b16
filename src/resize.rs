//! Aspect-fit bilinear resampling of RGB888 images.
//!
//! Positions and weights are exact rationals: output column `x` samples the
//! source at `x * src_width / new_width`, whose whole part picks the left
//! neighbour and whose remainder weights the right one; rows alike. The
//! blended value is a weighted mean of bytes, rounded down, so it always lies
//! in `0..=255`.

use vstd::prelude::*;
use vstd::arithmetic::div_mod::{
    lemma_fundamental_div_mod,
    lemma_fundamental_div_mod_converse,
    lemma_mod_pos_bound,
};
use crate::ImageError;

verus! {

/// The size of a `sw`×`sh` image scaled to fit a `tw`×`th` box with its aspect
/// kept: by width when the image is relatively wider than the box, else by
/// height, the other side rounded down.
pub open spec fn fit_size(sw: int, sh: int, tw: int, th: int) -> (int, int) {
    if sw * th > tw * sh {
        (tw, tw * sh / sw)
    } else {
        (th * sw / sh, th)
    }
}

/// Channel `c` of pixel (`x`, `y`) of a row-major RGB888 image `sw` wide.
pub open spec fn src_byte(src: Seq<u8>, sw: int, x: int, y: int, c: int) -> int {
    src[(y * sw + x) * 3 + c] as int
}

/// The next index after `i`, held inside `0..n`.
pub open spec fn next_clamped(i: int, n: int) -> int {
    if i + 1 < n {
        i + 1
    } else {
        n - 1
    }
}

/// The bilinear blend of four bytes with horizontal weight `fx / nw` and
/// vertical weight `fy / nh` towards the second neighbour, rounded down.
pub open spec fn blend_value(
    p00: int,
    p10: int,
    p01: int,
    p11: int,
    fx: int,
    nw: int,
    fy: int,
    nh: int,
) -> int {
    (p00 * (nw - fx) * (nh - fy) + p10 * fx * (nh - fy) + p01 * (nw - fx) * fy + p11 * fx * fy) / (
    nw * nh)
}

/// Channel `c` of output pixel (`x`, `y`) when a `sw`×`sh` image is resampled
/// to `nw`×`nh`.
pub open spec fn bilinear(
    src: Seq<u8>,
    sw: int,
    sh: int,
    nw: int,
    nh: int,
    x: int,
    y: int,
    c: int,
) -> int {
    let x0 = x * sw / nw;
    let y0 = y * sh / nh;
    let x1 = next_clamped(x0, sw);
    let y1 = next_clamped(y0, sh);
    blend_value(
        src_byte(src, sw, x0, y0, c),
        src_byte(src, sw, x1, y0, c),
        src_byte(src, sw, x0, y1, c),
        src_byte(src, sw, x1, y1, c),
        x * sw % nw,
        nw,
        y * sh % nh,
        nh,
    )
}

/// `out` is the `nw`×`nh` bilinear resampling of the `sw`×`sh` image `src`.
pub open spec fn is_resampled(src: Seq<u8>, sw: int, sh: int, nw: int, nh: int, out: Seq<u8>) -> bool {
    &&& out.len() == nw * nh * 3
    &&& forall|p: int, c: int|
        0 <= p < nw * nh && 0 <= c < 3 ==> #[trigger] out[p * 3 + c] as int == bilinear(
            src,
            sw,
            sh,
            nw,
            nh,
            p % nw,
            p / nw,
            c,
        )
}

/// Scaling an index `x < n` by `s / n` lands inside `0..s`.
proof fn lemma_scaled(x: int, n: int, s: int)
    requires
        0 <= x < n,
        0 < s,
    ensures
        0 <= x * s / n < s,
        0 <= x * s % n < n,
{
    lemma_fundamental_div_mod(x * s, n);
    lemma_mod_pos_bound(x * s, n);
    let q = x * s / n;
    let r = x * s % n;
    assert(0 <= x * s) by (nonlinear_arith)
        requires
            0 <= x,
            0 < s,
    ;
    assert(0 <= q < s) by (nonlinear_arith)
        requires
            x * s == n * q + r,
            0 <= r < n,
            0 <= x < n,
            0 < s,
            0 <= x * s,
    ;
}

/// Cell (`x`, `y`) of a `w`×`h` grid in row-major order.
pub(crate) proof fn lemma_cell(x: int, y: int, w: int, h: int)
    requires
        0 <= x < w,
        0 <= y < h,
    ensures
        0 <= y * w + x < w * h,
        (y * w + x) % w == x,
        (y * w + x) / w == y,
{
    assert(0 <= y * w + x < w * h) by (nonlinear_arith)
        requires
            0 <= x < w,
            0 <= y < h,
    ;
    lemma_fundamental_div_mod_converse(y * w + x, w, y, x);
}

/// Blends four bytes as `blend_value` says.
fn blend(p00: u8, p10: u8, p01: u8, p11: u8, fx: u128, nw: u128, fy: u128, nh: u128) -> (r: u8)
    requires
        fx < nw,
        fy < nh,
        nw * nh <= u64::MAX,
    ensures
        r as int == blend_value(
            p00 as int,
            p10 as int,
            p01 as int,
            p11 as int,
            fx as int,
            nw as int,
            fy as int,
            nh as int,
        ),
{
    let gx = nw - fx;
    let gy = nh - fy;
    assert(gx * gy + fx * gy + gx * fy + fx * fy == nw * nh) by (nonlinear_arith)
        requires
            gx == nw - fx,
            gy == nh - fy,
    ;
    assert(gx * gy <= nw * nh && fx * gy <= nw * nh && gx * fy <= nw * nh && fx * fy <= nw * nh)
        by (nonlinear_arith)
        requires
            gx * gy + fx * gy + gx * fy + fx * fy == nw * nh,
            0 <= gx,
            0 <= gy,
            0 <= fx,
            0 <= fy,
    ;
    let w00 = gx * gy;
    let w10 = fx * gy;
    let w01 = gx * fy;
    let w11 = fx * fy;
    let total = nw * nh;
    assert(p00 * w00 + p10 * w10 + p01 * w01 + p11 * w11 <= 255 * total) by (nonlinear_arith)
        requires
            w00 + w10 + w01 + w11 == total,
            p00 <= 255,
            p10 <= 255,
            p01 <= 255,
            p11 <= 255,
            0 <= w00,
            0 <= w10,
            0 <= w01,
            0 <= w11,
    ;
    assert(p00 * w00 <= 255 * total && p10 * w10 <= 255 * total && p01 * w01 <= 255 * total
        && p11 * w11 <= 255 * total) by (nonlinear_arith)
        requires
            w00 <= total,
            w10 <= total,
            w01 <= total,
            w11 <= total,
            p00 <= 255,
            p10 <= 255,
            p01 <= 255,
            p11 <= 255,
    ;
    let sum = p00 as u128 * w00 + p10 as u128 * w10 + p01 as u128 * w01 + p11 as u128 * w11;
    assert(0 < total) by (nonlinear_arith)
        requires
            total == nw * nh,
            fx < nw,
            fy < nh,
    ;
    assert(sum / total <= 255) by (nonlinear_arith)
        requires
            sum <= 255 * total,
            0 < total,
    ;
    assert(sum as int == p00 * (nw - fx) * (nh - fy) + p10 * fx * (nh - fy) + p01 * (nw - fx) * fy
        + p11 * fx * fy) by (nonlinear_arith)
        requires
            sum == p00 * w00 + p10 * w10 + p01 * w01 + p11 * w11,
            w00 == gx * gy,
            w10 == fx * gy,
            w01 == gx * fy,
            w11 == fx * fy,
            gx == nw - fx,
            gy == nh - fy,
    ;
    (sum / total) as u8
}

/// Aspect fit: the fitted size never exceeds the box in either dimension and
/// equals it in at least one.
pub proof fn lemma_fit_size(sw: int, sh: int, tw: int, th: int)
    requires
        0 < sw,
        0 < sh,
        0 < tw,
        0 < th,
    ensures
        0 <= fit_size(sw, sh, tw, th).0 <= tw,
        0 <= fit_size(sw, sh, tw, th).1 <= th,
        fit_size(sw, sh, tw, th).0 == tw || fit_size(sw, sh, tw, th).1 == th,
        fit_size(sw, sh, tw, th).0 * fit_size(sw, sh, tw, th).1 <= tw * th,
{
    let (nw, nh) = fit_size(sw, sh, tw, th);
    if sw * th > tw * sh {
        let a = tw * sh;
        lemma_fundamental_div_mod(a, sw);
        lemma_mod_pos_bound(a, sw);
        assert(0 <= a) by (nonlinear_arith)
            requires
                0 < tw,
                0 < sh,
                a == tw * sh,
        ;
        assert(0 <= a / sw < th) by (nonlinear_arith)
            requires
                a == sw * (a / sw) + a % sw,
                0 <= a % sw < sw,
                0 <= a,
                a < sw * th,
                0 < sw,
        ;
    } else {
        let a = th * sw;
        lemma_fundamental_div_mod(a, sh);
        lemma_mod_pos_bound(a, sh);
        assert(0 <= a) by (nonlinear_arith)
            requires
                0 < th,
                0 < sw,
                a == th * sw,
        ;
        assert(0 <= a / sh <= tw) by (nonlinear_arith)
            requires
                a == sh * (a / sh) + a % sh,
                0 <= a % sh < sh,
                0 <= a,
                a <= tw * sh,
                0 < sh,
        ;
    }
    assert(nw * nh <= tw * th) by (nonlinear_arith)
        requires
            0 <= nw <= tw,
            0 <= nh <= th,
    ;
}

/// Resamples the `src_width`×`src_height` RGB888 image `src` (row-major, three
/// bytes a pixel) to the largest size that fits a `target_width`×`target_height`
/// box with its aspect kept, blending each output pixel bilinearly from the
/// four nearest source pixels (edges clamped). Returns the new image with its
/// width and height.
///
/// Fails with `DegenerateInput` when any of the four sizes is zero, and with
/// `DimensionMismatch` when `src` does not hold `src_width * src_height`
/// pixels.
pub fn mitchell_upscale(
    src: Vec<u8>,
    src_width: usize,
    src_height: usize,
    target_width: usize,
    target_height: usize,
) -> (r: Result<(Vec<u8>, usize, usize), ImageError>)
    requires
        target_width * target_height * 3 <= usize::MAX,
    ensures
        (src_width == 0 || src_height == 0 || target_width == 0 || target_height == 0) ==> r
            == Err::<(Vec<u8>, usize, usize), ImageError>(ImageError::DegenerateInput),
        (src_width > 0 && src_height > 0 && target_width > 0 && target_height > 0 && src@.len()
            != src_width * src_height * 3) ==> r == Err::<(Vec<u8>, usize, usize), ImageError>(
            ImageError::DimensionMismatch,
        ),
        r is Ok <==> (src_width > 0 && src_height > 0 && target_width > 0 && target_height > 0
            && src@.len() == src_width * src_height * 3),
        r matches Ok((out, new_width, new_height)) ==> {
            &&& new_width <= target_width && new_height <= target_height
            &&& new_width == target_width || new_height == target_height
            &&& (new_width as int, new_height as int) == fit_size(
                src_width as int,
                src_height as int,
                target_width as int,
                target_height as int,
            )
            &&& is_resampled(
                src@,
                src_width as int,
                src_height as int,
                new_width as int,
                new_height as int,
                out@,
            )
        },
{
    if src_width == 0 || src_height == 0 || target_width == 0 || target_height == 0 {
        return Err(ImageError::DegenerateInput);
    }
    let len = src.len();
    let expected = match src_width.checked_mul(src_height) {
        Some(a) => a.checked_mul(3),
        None => None,
    };
    match expected {
        Some(e) => {
            if e != len {
                return Err(ImageError::DimensionMismatch);
            }
        },
        None => {
            assert(src_width * src_height * 3 > usize::MAX) by (nonlinear_arith)
                requires
                    src_width * src_height > usize::MAX || src_width * src_height * 3 > usize::MAX,
            ;
            return Err(ImageError::DimensionMismatch);
        },
    }
    let sw = src_width as u128;
    let sh = src_height as u128;
    let tw = target_width as u128;
    let th = target_height as u128;
    assert(sw * th < 0x1_0000_0000_0000_0000_0000_0000_0000_0000 && tw * sh
        < 0x1_0000_0000_0000_0000_0000_0000_0000_0000) by (nonlinear_arith)
        requires
            sw <= u64::MAX,
            sh <= u64::MAX,
            tw <= u64::MAX,
            th <= u64::MAX,
    ;
    proof {
        lemma_fit_size(sw as int, sh as int, tw as int, th as int);
    }
    let (new_width, new_height) = if sw * th > tw * sh {
        (target_width, (tw * sh / sw) as usize)
    } else {
        ((th * sw / sh) as usize, target_height)
    };
    let nw = new_width as u128;
    let nh = new_height as u128;
    assert(nw * nh <= u64::MAX && nw * nh <= usize::MAX) by (nonlinear_arith)
        requires
            nw * nh <= tw * th,
            tw * th * 3 <= usize::MAX,
            usize::MAX <= u64::MAX,
    ;
    let ghost total = new_width * new_height;
    let mut out: Vec<u8> = Vec::new();
    let mut k: usize = 0;
    let mut y: usize = 0;
    while y < new_height
        invariant
            src@.len() == src_width * src_height * 3,
            len == src@.len(),
            0 < src_width,
            0 < src_height,
            sw == src_width,
            sh == src_height,
            nw == new_width,
            nh == new_height,
            nw * nh <= u64::MAX,
            total == nw * nh,
            total <= usize::MAX,
            usize::MAX <= u64::MAX,
            y <= new_height,
            k == y * new_width,
            out@.len() == k * 3,
            forall|p: int, c: int|
                0 <= p < k && 0 <= c < 3 ==> #[trigger] out@[p * 3 + c] as int == bilinear(
                    src@,
                    sw as int,
                    sh as int,
                    nw as int,
                    nh as int,
                    p % (nw as int),
                    p / (nw as int),
                    c,
                ),
        decreases new_height - y,
    {
        assert(y * sh <= u64::MAX * u64::MAX) by (nonlinear_arith)
            requires
                y <= u64::MAX,
                sh <= u64::MAX,
        ;
        let sy = y as u128 * sh;
        proof {
            lemma_scaled(y as int, nh as int, sh as int);
        }
        let y0 = (sy / nh) as usize;
        let fy = sy % nh;
        let y1 = if y0 + 1 < src_height { y0 + 1 } else { src_height - 1 };
        let mut x: usize = 0;
        while x < new_width
            invariant
                src@.len() == src_width * src_height * 3,
                len == src@.len(),
                0 < src_width,
                0 < src_height,
                sw == src_width,
                sh == src_height,
                nw == new_width,
                nh == new_height,
                nw * nh <= u64::MAX,
                total == nw * nh,
                total <= usize::MAX,
            total <= usize::MAX,
                usize::MAX <= u64::MAX,
                y < new_height,
                x <= new_width,
                y0 == (y as int) * (sh as int) / (nh as int),
                fy == (y as int) * (sh as int) % (nh as int),
                y0 < src_height,
                fy < nh,
                y1 == next_clamped(y0 as int, sh as int),
                k == y * new_width + x,
                out@.len() == k * 3,
                forall|p: int, c: int|
                    0 <= p < k && 0 <= c < 3 ==> #[trigger] out@[p * 3 + c] as int == bilinear(
                        src@,
                        sw as int,
                        sh as int,
                        nw as int,
                        nh as int,
                        p % (nw as int),
                        p / (nw as int),
                        c,
                    ),
            decreases new_width - x,
        {
            assert(x * sw <= u64::MAX * u64::MAX) by (nonlinear_arith)
                requires
                    x <= u64::MAX,
                    sw <= u64::MAX,
            ;
            let sx = x as u128 * sw;
            proof {
                lemma_scaled(x as int, nw as int, sw as int);
                lemma_cell(x as int, y as int, nw as int, nh as int);
            }
            let x0 = (sx / nw) as usize;
            let fx = sx % nw;
            let x1 = if x0 + 1 < src_width { x0 + 1 } else { src_width - 1 };
            proof {
                lemma_cell(x0 as int, y0 as int, src_width as int, src_height as int);
                lemma_cell(x1 as int, y0 as int, src_width as int, src_height as int);
                lemma_cell(x0 as int, y1 as int, src_width as int, src_height as int);
                lemma_cell(x1 as int, y1 as int, src_width as int, src_height as int);
            }
            assert(x0 < src_width && x1 < src_width && y1 < src_height);
            assert(y0 * src_width + x0 < src_width * src_height);
            let i00 = (y0 * src_width + x0) * 3;
            let i10 = (y0 * src_width + x1) * 3;
            let i01 = (y1 * src_width + x0) * 3;
            let i11 = (y1 * src_width + x1) * 3;
            let ghost before = out@;
            out.push(blend(src[i00], src[i10], src[i01], src[i11], fx, nw, fy, nh));
            out.push(blend(src[i00 + 1], src[i10 + 1], src[i01 + 1], src[i11 + 1], fx, nw, fy, nh));
            out.push(blend(src[i00 + 2], src[i10 + 2], src[i01 + 2], src[i11 + 2], fx, nw, fy, nh));
            assert forall|p: int, c: int| 0 <= p < k + 1 && 0 <= c < 3 implies #[trigger] out@[p
                * 3 + c] as int == bilinear(
                src@,
                sw as int,
                sh as int,
                nw as int,
                nh as int,
                p % (nw as int),
                p / (nw as int),
                c,
            ) by {
                if p < k {
                    assert(out@[p * 3 + c] == before[p * 3 + c]);
                }
            }
            k = k + 1;
            x = x + 1;
        }
        assert((y + 1) * new_width == y * new_width + new_width) by (nonlinear_arith);
        y = y + 1;
    }
    assert(k == total) by (nonlinear_arith)
        requires
            k == y * new_width,
            y == new_height,
            total == new_width * new_height,
    ;
    Ok((out, new_width, new_height))
}

} // verus!
