//! Floyd-Steinberg error diffusion onto a palette.
//!
//! Each pixel's working colour is kept per channel in sixteenths of a level,
//! so that the diffused shares (7, 3, 5 and 1 sixteenths of an error) are
//! exact multiples of the unit before rounding toward zero. A working value is
//! read as a level by its whole part clamped into `0..=255`; the error it
//! leaves is the unclamped working value less the chosen colour. Working
//! values saturate at the bounds of `i64`.

use vstd::prelude::*;
use crate::ImageError;
use crate::palette::{
    Palette,
    Rgb,
    display_colors,
    distinct,
    lemma_nearest_of_entry,
    lemma_nearest_unique,
    nearest_index,
};
use vstd::arithmetic::div_mod::lemma_fundamental_div_mod;
use crate::resize::lemma_cell;

verus! {

/// `v` held inside the range of `i64`.
pub open spec fn sat(v: int) -> int {
    if v < i64::MIN {
        i64::MIN as int
    } else if v > i64::MAX {
        i64::MAX as int
    } else {
        v
    }
}

/// `e * w / 16`, rounded toward zero.
pub open spec fn share(e: int, w: int) -> int {
    if e >= 0 {
        e * w / 16
    } else {
        -((-e) * w / 16)
    }
}

/// The level that a working value in sixteenths reads as: its whole part,
/// clamped into `0..=255`.
pub open spec fn level(a: int) -> u8 {
    if a < 0 {
        0
    } else if a >= 4080 {
        255
    } else {
        (a / 16) as u8
    }
}

/// Channel `c` of a colour.
pub open spec fn channel(q: Rgb, c: int) -> u8 {
    if c == 0 {
        q.0
    } else if c == 1 {
        q.1
    } else {
        q.2
    }
}

/// The error that working value `a` leaves when its channel is drawn as `v`.
pub open spec fn residual(a: int, v: u8) -> int {
    sat(a - 16 * v)
}

/// The sixteenths of pixel `i`'s error that pixel `p` receives in a `w`×`h`
/// image: 7 to the right, 3 below-left, 5 below and 1 below-right, and none
/// across an edge.
pub open spec fn weight(w: int, h: int, i: int, p: int) -> int {
    let x = i % w;
    let y = i / w;
    if p == i + 1 && x + 1 < w {
        7
    } else if y + 1 < h && x > 0 && p == i + w - 1 {
        3
    } else if y + 1 < h && p == i + w {
        5
    } else if y + 1 < h && x + 1 < w && p == i + w + 1 {
        1
    } else {
        0
    }
}

/// The working values after pixel `i`, drawn as `q`, has spread its error.
pub open spec fn diffuse(acc: Seq<int>, w: int, h: int, i: int, q: Rgb) -> Seq<int> {
    Seq::new(
        acc.len(),
        |j: int|
            if weight(w, h, i, j / 3) == 0 {
                acc[j]
            } else {
                sat(
                    acc[j] + share(
                        residual(acc[3 * i + j % 3], channel(q, j % 3)),
                        weight(w, h, i, j / 3),
                    ),
                )
            },
    )
}

/// The colour that pixel `i` reads as from the working values.
pub open spec fn seen(acc: Seq<int>, i: int) -> Rgb {
    (level(acc[3 * i]), level(acc[3 * i + 1]), level(acc[3 * i + 2]))
}

/// The working values before any pixel is drawn: each byte in sixteenths.
pub open spec fn initial(src: Seq<u8>) -> Seq<int> {
    Seq::new(src.len(), |j: int| 16 * (src[j] as int))
}

/// The working values and the codes after the first `k` pixels of the
/// `w`×`h` image `src` have been drawn from `colors` in row-major order.
pub open spec fn scan(src: Seq<u8>, colors: Seq<Rgb>, w: int, h: int, k: nat) -> (Seq<int>, Seq<u8>)
    decreases k,
{
    if k == 0 {
        (initial(src), Seq::empty())
    } else {
        let (acc, codes) = scan(src, colors, w, h, (k - 1) as nat);
        let i = k - 1;
        let code = nearest_index(colors, seen(acc, i));
        (diffuse(acc, w, h, i, colors[code]), codes.push(code as u8))
    }
}

/// A scan keeps one working value per byte and gives one code per pixel drawn.
proof fn lemma_scan_len(src: Seq<u8>, colors: Seq<Rgb>, w: int, h: int, k: nat)
    ensures
        scan(src, colors, w, h, k).0.len() == src.len(),
        scan(src, colors, w, h, k).1.len() == k,
    decreases k,
{
    if k > 0 {
        lemma_scan_len(src, colors, w, h, (k - 1) as nat);
    }
}

/// The palette codes of the dithered `w`×`h` image `src`, one per pixel.
pub open spec fn dithered(src: Seq<u8>, colors: Seq<Rgb>, w: int, h: int) -> Seq<u8> {
    scan(src, colors, w, h, (w * h) as nat).1
}

/// The values of a sequence of `i64`.
pub open spec fn ints(v: Seq<i64>) -> Seq<int> {
    Seq::new(v.len(), |j: int| v[j] as int)
}

fn saturate(v: i128) -> (r: i64)
    ensures
        r as int == sat(v as int),
{
    if v < i64::MIN as i128 {
        i64::MIN
    } else if v > i64::MAX as i128 {
        i64::MAX
    } else {
        v as i64
    }
}

fn share_of(e: i64, w: i64) -> (r: i64)
    requires
        0 <= w <= 16,
    ensures
        r as int == share(e as int, w as int),
{
    let mag: u128 = if e >= 0 { e as u128 } else { (-(e as i128)) as u128 };
    assert(mag * (w as u128) <= 0x8000_0000_0000_0000u128 * 16) by (nonlinear_arith)
        requires
            mag <= 0x8000_0000_0000_0000u128,
            0 <= w <= 16,
    ;
    let part = mag * (w as u128) / 16;
    assert(part <= mag) by (nonlinear_arith)
        requires
            part == mag * w / 16,
            0 <= w <= 16,
    ;
    if e >= 0 {
        part as i64
    } else {
        assert((-e) * w == mag * w);
        -(part as i128) as i64
    }
}

fn level_of(a: i64) -> (r: u8)
    ensures
        r == level(a as int),
{
    if a < 0 {
        0
    } else if a >= 4080 {
        255
    } else {
        (a / 16) as u8
    }
}

/// Adds `wt` sixteenths of the error (`e0`, `e1`, `e2`) to the three working
/// values of the pixel that starts at `b`.
fn spread(acc: &mut Vec<i64>, b: usize, e0: i64, e1: i64, e2: i64, wt: i64)
    requires
        b + 3 <= old(acc)@.len(),
        0 <= wt <= 16,
    ensures
        final(acc)@.len() == old(acc)@.len(),
        forall|j: int|
            0 <= j < old(acc)@.len() ==> #[trigger] final(acc)@[j] as int == if j == b {
                sat(old(acc)@[j] + share(e0 as int, wt as int))
            } else if j == b + 1 {
                sat(old(acc)@[j] + share(e1 as int, wt as int))
            } else if j == b + 2 {
                sat(old(acc)@[j] + share(e2 as int, wt as int))
            } else {
                old(acc)@[j] as int
            },
{
    let n = acc.len();
    let v0 = saturate(acc[b] as i128 + share_of(e0, wt) as i128);
    acc.set(b, v0);
    let v1 = saturate(acc[b + 1] as i128 + share_of(e1, wt) as i128);
    acc.set(b + 1, v1);
    let v2 = saturate(acc[b + 2] as i128 + share_of(e2, wt) as i128);
    acc.set(b + 2, v2);
}

/// Spreads the error that pixel `i` (column `x`, row `y`) leaves when drawn as
/// `q` over its neighbours, as `diffuse` says.
#[verifier::rlimit(50)]
fn diffuse_from(acc: &mut Vec<i64>, width: usize, height: usize, i: usize, x: usize, y: usize, q: Rgb)
    requires
        old(acc)@.len() == width * height * 3,
        i == y * width + x,
        x < width,
        y < height,
    ensures
        final(acc)@.len() == old(acc)@.len(),
        ints(final(acc)@) == diffuse(ints(old(acc)@), width as int, height as int, i as int, q),
{
    proof {
        lemma_cell(x as int, y as int, width as int, height as int);
    }
    let n = acc.len();
    let ghost before = ints(acc@);
    let b = i * 3;
    let e0 = saturate(acc[b] as i128 - 16 * (q.0 as i128));
    let e1 = saturate(acc[b + 1] as i128 - 16 * (q.1 as i128));
    let e2 = saturate(acc[b + 2] as i128 - 16 * (q.2 as i128));
    assert((y + 1) * width == y * width + width) by (nonlinear_arith);
    if x + 1 < width {
        proof {
            lemma_cell((x + 1) as int, y as int, width as int, height as int);
        }
        spread(acc, b + 3, e0, e1, e2, 7);
    }
    if y + 1 < height {
        proof {
            lemma_cell(x as int, (y + 1) as int, width as int, height as int);
        }
        if x > 0 {
            spread(acc, (i + width - 1) * 3, e0, e1, e2, 3);
        }
        spread(acc, (i + width) * 3, e0, e1, e2, 5);
        if x + 1 < width {
            proof {
                lemma_cell((x + 1) as int, (y + 1) as int, width as int, height as int);
            }
            spread(acc, (i + width + 1) * 3, e0, e1, e2, 1);
        }
    }
    assert(ints(acc@) =~= diffuse(before, width as int, height as int, i as int, q));
}

/// Draws the `width`×`height` RGB888 image `src` (row-major, three bytes a
/// pixel) with the colours of `palette` by Floyd-Steinberg error diffusion,
/// and returns one palette code per pixel in the same order.
///
/// Fails with `DimensionMismatch` when `src` does not hold
/// `width * height` pixels.
pub fn dither(src: Vec<u8>, width: usize, height: usize, palette: &Palette) -> (r: Result<
    Vec<u8>,
    ImageError,
>)
    requires
        palette.wf(),
    ensures
        r is Ok <==> src@.len() == width * height * 3,
        r matches Err(e) ==> e == ImageError::DimensionMismatch,
        r matches Ok(codes) ==> {
            &&& codes@ == dithered(src@, palette.colors(), width as int, height as int)
            &&& codes@.len() == width * height
            &&& forall|i: int| 0 <= i < codes@.len() ==> codes@[i] < palette.colors().len()
        },
{
    let len = src.len();
    let n = match width.checked_mul(height) {
        Some(n) => n,
        None => {
            return Err(ImageError::DimensionMismatch);
        },
    };
    match n.checked_mul(3) {
        Some(n3) => {
            if n3 != len {
                return Err(ImageError::DimensionMismatch);
            }
        },
        None => {
            return Err(ImageError::DimensionMismatch);
        },
    }
    let ghost colors = palette.colors();
    let ghost start = initial(src@);
    let mut acc: Vec<i64> = Vec::new();
    let mut j: usize = 0;
    while j < len
        invariant
            len == src@.len(),
            j <= len,
            acc@.len() == j,
            start == initial(src@),
            forall|t: int| 0 <= t < j ==> #[trigger] acc@[t] as int == start[t],
        decreases len - j,
    {
        let ghost prev = acc@;
        acc.push(16 * (src[j] as i64));
        assert(forall|t: int| 0 <= t < j ==> acc@[t] == prev[t]);
        j += 1;
    }
    assert(ints(acc@) =~= start);
    let mut out: Vec<u8> = Vec::new();
    if n == 0 {
        return Ok(out);
    }
    let mut i: usize = 0;
    let mut x: usize = 0;
    let mut y: usize = 0;
    while i < n
        invariant
            palette.wf(),
            colors == palette.colors(),
            0 < width,
            0 < height,
            n == width * height,
            len == n * 3,
            src@.len() == len,
            i <= n,
            i == y * width + x,
            x < width,
            y <= height,
            acc@.len() == len,
            ints(acc@) == scan(src@, colors, width as int, height as int, i as nat).0,
            out@ == scan(src@, colors, width as int, height as int, i as nat).1,
            out@.len() == i,
            forall|k: int| 0 <= k < i ==> out@[k] < colors.len(),
        decreases n - i,
    {
        assert(y < height) by (nonlinear_arith)
            requires
                i == y * width + x,
                i < n,
                n == width * height,
                0 <= x,
        ;
        proof {
            lemma_cell(x as int, y as int, width as int, height as int);
            lemma_scan_len(src@, colors, width as int, height as int, i as nat);
        }
        let ghost before = ints(acc@);
        let b = i * 3;
        let a0 = acc[b];
        let a1 = acc[b + 1];
        let a2 = acc[b + 2];
        let shown = (level_of(a0), level_of(a1), level_of(a2));
        assert(shown == seen(before, i as int));
        let (code, q) = palette.nearest(shown);
        proof {
            lemma_nearest_unique(colors, shown, code as int);
        }
        out.push(code);
        assert(forall|k: int| 0 <= k <= i ==> out@[k] < colors.len());
        diffuse_from(&mut acc, width, height, i, x, y, q);
        i += 1;
        x += 1;
        if x == width {
            assert(y * width + width == (y + 1) * width) by (nonlinear_arith);
            x = 0;
            y += 1;
        }
    }
    proof {
        lemma_scan_len(src@, colors, width as int, height as int, i as nat);
    }
    Ok(out)
}

/// Draws the RGB888 image `src`, `width` pixels to a row and as many rows as
/// it holds, with the seven-colour e-paper display's palette by
/// Floyd-Steinberg error diffusion; returns one display colour code per pixel.
///
/// Fails with `DimensionMismatch` when `width` is zero or `src` does not hold
/// a whole number of rows.
pub fn floyd_steinberg_dither(width: usize, src: Vec<u8>) -> (r: Result<Vec<u8>, ImageError>)
    ensures
        r is Ok <==> (width > 0 && (src@.len() as int) % (width * 3) == 0),
        r matches Err(e) ==> e == ImageError::DimensionMismatch,
        r matches Ok(codes) ==> {
            &&& codes@ == dithered(
                src@,
                display_colors(),
                width as int,
                (src@.len() as int) / (width * 3),
            )
            &&& codes@.len() * 3 == src@.len()
            &&& forall|i: int| 0 <= i < codes@.len() ==> codes@[i] < 8
        },
{
    if width == 0 {
        return Err(ImageError::DimensionMismatch);
    }
    let len = src.len();
    let palette = Palette::display();
    match width.checked_mul(3) {
        None => {
            if len != 0 {
                assert((len as int) % (width * 3) == len) by {
                    vstd::arithmetic::div_mod::lemma_small_mod(len as nat, (width * 3) as nat);
                }
                return Err(ImageError::DimensionMismatch);
            }
            let ghost d = width * 3;
            proof {
                vstd::arithmetic::div_mod::lemma_small_mod(0, d as nat);
                lemma_fundamental_div_mod(0, d);
            }
            assert(0int / d == 0) by (nonlinear_arith)
                requires
                    0 == d * (0int / d) + 0int % d,
                    0int % d == 0,
                    d > 0,
            ;
            dither(src, width, 0, &palette)
        },
        Some(row) => {
            if len % row != 0 {
                return Err(ImageError::DimensionMismatch);
            }
            let height = len / row;
            proof {
                lemma_fundamental_div_mod(len as int, row as int);
            }
            assert(len == width * height * 3) by (nonlinear_arith)
                requires
                    len == row * height + 0,
                    row == width * 3,
            ;
            dither(src, width, height, &palette)
        },
    }
}

/// The colour of pixel `i` of a row-major RGB888 image.
pub open spec fn pixel(src: Seq<u8>, i: int) -> Rgb {
    (src[3 * i], src[3 * i + 1], src[3 * i + 2])
}

/// Error only reaches pixels later in scan order and inside the image: the
/// right neighbour in the same row, or the below-left, below or below-right
/// neighbour in the next row. In a single column it only goes below; in a
/// single row, only right.
pub proof fn lemma_diffusion_in_bounds(w: int, h: int, i: int, p: int)
    requires
        0 < w,
        0 < h,
        0 <= i < w * h,
        weight(w, h, i, p) != 0,
    ensures
        i < p < w * h,
        (p / w == i / w && p % w == i % w + 1) || (p / w == i / w + 1 && i % w - 1 <= p % w <= i
            % w + 1),
{
    lemma_fundamental_div_mod(i, w);
    vstd::arithmetic::div_mod::lemma_mod_pos_bound(i, w);
    let x = i % w;
    let y = i / w;
    assert(0 <= y) by (nonlinear_arith)
        requires
            i == w * y + x,
            0 <= x < w,
            0 <= i,
    ;
    assert(y < h) by (nonlinear_arith)
        requires
            i == w * y + x,
            0 <= x,
            i < w * h,
            0 < w,
    ;
    assert((y + 1) * w == y * w + w) by (nonlinear_arith);
    if p == i + 1 && x + 1 < w {
        lemma_cell(x + 1, y, w, h);
    } else if y + 1 < h && x > 0 && p == i + w - 1 {
        lemma_cell(x - 1, y + 1, w, h);
    } else if y + 1 < h && p == i + w {
        lemma_cell(x, y + 1, w, h);
    } else {
        lemma_cell(x + 1, y + 1, w, h);
    }
}

/// A working value that is sixteen times a byte reads back as that byte.
proof fn lemma_level_of_byte(v: u8)
    ensures
        level(16 * (v as int)) == v,
{
}

/// The working values and codes of a scan over an image whose every pixel is
/// a palette colour: nothing has moved, and each code drawn names its pixel's
/// own colour.
proof fn lemma_scan_exact(src: Seq<u8>, colors: Seq<Rgb>, w: int, h: int, k: nat)
    requires
        distinct(colors),
        0 < colors.len() <= 256,
        src.len() == w * h * 3,
        k <= w * h,
        forall|i: int| 0 <= i < w * h ==> colors.contains(#[trigger] pixel(src, i)),
    ensures
        scan(src, colors, w, h, k).0 == initial(src),
        scan(src, colors, w, h, k).1.len() == k,
        forall|i: int|
            0 <= i < k ==> colors[#[trigger] scan(src, colors, w, h, k).1[i] as int] == pixel(src, i),
    decreases k,
{
    if k > 0 {
        let i = k - 1;
        lemma_scan_exact(src, colors, w, h, (k - 1) as nat);
        let acc = initial(src);
        lemma_level_of_byte(src[3 * i]);
        lemma_level_of_byte(src[3 * i + 1]);
        lemma_level_of_byte(src[3 * i + 2]);
        assert(seen(acc, i) == pixel(src, i));
        assert(colors.contains(pixel(src, i)));
        let m = choose|m: int| 0 <= m < colors.len() && colors[m] == pixel(src, i);
        lemma_nearest_of_entry(colors, m);
        let q = colors[m];
        assert(q == pixel(src, i));
        assert forall|c: int| 0 <= c < 3 implies residual(acc[3 * i + c], channel(q, c)) == 0 by {
            assert(acc[3 * i + c] == 16 * (src[3 * i + c] as int));
        }
        assert forall|j: int| 0 <= j < acc.len() implies #[trigger] diffuse(acc, w, h, i, q)[j]
            == acc[j] by {
            assert(0 <= j % 3 < 3);
            assert(residual(acc[3 * i + j % 3], channel(q, j % 3)) == 0);
            assert(acc[j] == 16 * (src[j] as int));
        }
        assert(diffuse(acc, w, h, i, q) =~= acc);
        let prev = scan(src, colors, w, h, (k - 1) as nat).1;
        assert(scan(src, colors, w, h, k).1 == prev.push(m as u8));
        assert forall|j: int| 0 <= j < k implies colors[#[trigger] scan(src, colors, w, h, k).1[j]
            as int] == pixel(src, j) by {
            if j < i {
                assert(scan(src, colors, w, h, k).1[j] == prev[j]);
            }
        }
    }
}

/// Dithering an image made only of palette colours draws every pixel as its
/// own colour and spreads no error: the working values stay as they started
/// at every step of the scan.
pub proof fn lemma_exact_colors_kept(src: Seq<u8>, colors: Seq<Rgb>, w: int, h: int)
    requires
        distinct(colors),
        0 < colors.len() <= 256,
        0 <= w,
        0 <= h,
        src.len() == w * h * 3,
        forall|i: int| 0 <= i < w * h ==> colors.contains(#[trigger] pixel(src, i)),
    ensures
        forall|k: nat| k <= w * h ==> #[trigger] scan(src, colors, w, h, k).0 == initial(src),
        dithered(src, colors, w, h).len() == w * h,
        forall|i: int|
            0 <= i < w * h ==> colors[#[trigger] dithered(src, colors, w, h)[i] as int] == pixel(
                src,
                i,
            ),
{
    assert forall|k: nat| k <= w * h implies #[trigger] scan(src, colors, w, h, k).0 == initial(
        src,
    ) by {
        lemma_scan_exact(src, colors, w, h, k);
    }
    assert(0 <= w * h) by (nonlinear_arith)
        requires
            0 <= w,
            0 <= h,
    ;
    lemma_scan_exact(src, colors, w, h, (w * h) as nat);
}

} // verus!
