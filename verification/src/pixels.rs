//! RGBA bitmaps and what the passes do to them before an upload: cropping a cell,
//! filling, tinting, mirroring and resampling.

use vstd::arithmetic::div_mod::lemma_fundamental_div_mod_converse;
use vstd::prelude::*;

use crate::colour::{tinted, Levels, Tint};
use crate::proto::encodable;

verus! {

/// Decoded RGBA8 pixels for one distinct bitmap: a whole image, or one atlas cell.
#[derive(Clone, Debug)]
pub struct Bitmap {
    /// Tightly packed RGBA8, `w * h * 4` bytes, top row first.
    pub rgba: Vec<u8>,
    pub w: u32,
    pub h: u32,
}

/// A rectangle of pixels: the corner in it with the least coordinates, and the first
/// corner past it.
#[derive(Clone, Copy, PartialEq, Eq, Debug, Structural)]
pub struct CellRect {
    pub x0: u32,
    pub y0: u32,
    pub x1: u32,
    pub y1: u32,
}

impl CellRect {
    /// Whether the corners are in order.
    pub open spec fn wf(self) -> bool {
        self.x0 <= self.x1 && self.y0 <= self.y1
    }

    /// The width of the rectangle.
    pub fn width(&self) -> (w: u32)
        requires
            self.wf(),
        ensures
            w == self.x1 - self.x0,
    {
        self.x1 - self.x0
    }

    /// The height of the rectangle.
    pub fn height(&self) -> (h: u32)
        requires
            self.wf(),
        ensures
            h == self.y1 - self.y0,
    {
        self.y1 - self.y0
    }
}

/// An image in memory, as much of it as cropping reads.
#[derive(Clone, Copy, Debug)]
pub struct CpuImage<'a> {
    /// The pixel bytes, if the asset kept any on the CPU side.
    pub data: Option<&'a [u8]>,
    pub width: u32,
    pub height: u32,
    /// Whether the bytes are 8-bit RGBA, in either colour space.
    pub rgba8: bool,
}

// ---- rasters ------------------------------------------------------------------------

/// How many bytes a bitmap of a given size takes.
pub open spec fn byte_len(w: u32, h: u32) -> nat {
    (w * h * 4) as nat
}

/// A channel of a pixel of a bitmap that is `w` pixels wide.
pub open spec fn pixel(rgba: Seq<u8>, w: int, x: int, y: int, c: int) -> u8 {
    rgba[(y * w + x) * 4 + c]
}

/// The bitmap whose channel `c` at `(x, y)` is `f(x, y, c)`.
pub open spec fn raster(w: u32, h: u32, f: spec_fn(int, int, int) -> u8) -> Seq<u8> {
    Seq::new(byte_len(w, h), |i: int| f(i / 4 % w as int, i / 4 / w as int, i % 4))
}

/// Where a channel of a pixel stands in a bitmap.
proof fn pixel_offset(w: u32, h: u32, x: int, y: int, c: int)
    requires
        0 <= x < w,
        0 <= y < h,
        0 <= c < 4,
    ensures
        0 <= (y * w + x) * 4 + c < byte_len(w, h),
        ((y * w + x) * 4 + c) / 4 == y * w + x,
        ((y * w + x) * 4 + c) % 4 == c,
        (y * w + x) % w as int == x,
        (y * w + x) / w as int == y,
        0 <= y * w + x,
{
    lemma_fundamental_div_mod_converse(y * w + x, w as int, y, x);
    assert(0 <= y * w && y * w + w <= w * h) by (nonlinear_arith)
        requires
            0 <= y < h,
    ;
}

/// A raster's channel at a pixel is the function's value there.
pub proof fn raster_pixel(w: u32, h: u32, f: spec_fn(int, int, int) -> u8, x: int, y: int, c: int)
    requires
        0 <= x < w,
        0 <= y < h,
        0 <= c < 4,
    ensures
        pixel(raster(w, h, f), w as int, x, y, c) == f(x, y, c),
{
    pixel_offset(w, h, x, y, c);
}

/// One pixel more of a raster.
proof fn raster_grows(w: u32, h: u32, f: spec_fn(int, int, int) -> u8, x: int, y: int)
    requires
        0 <= x < w,
        0 <= y < h,
    ensures
        (y * w + x) * 4 + 4 <= byte_len(w, h),
        raster(w, h, f).take((y * w + x) * 4).push(f(x, y, 0)).push(f(x, y, 1)).push(
            f(x, y, 2),
        ).push(f(x, y, 3)) == raster(w, h, f).take((y * w + x + 1) * 4),
{
    pixel_offset(w, h, x, y, 0);
    pixel_offset(w, h, x, y, 1);
    pixel_offset(w, h, x, y, 2);
    pixel_offset(w, h, x, y, 3);
    let n = (y * w + x) * 4;
    let r = raster(w, h, f);
    assert(r.take(n + 4) =~= r.take(n).push(f(x, y, 0)).push(f(x, y, 1)).push(f(x, y, 2)).push(
        f(x, y, 3),
    ));
}

proof fn row_ends(w: u32, y: int)
    ensures
        y * w + w == (y + 1) * w,
        (y + 1) * w + 0 == (y + 1) * w,
{
    assert(y * w + w == (y + 1) * w) by (nonlinear_arith);
}

impl Bitmap {
    /// Whether the bytes are as many as the size says.
    pub open spec fn wf(self) -> bool {
        self.rgba@.len() == byte_len(self.w, self.h)
    }

    /// A bitmap from raw parts, checking the length matches the dimensions.
    ///
    /// Returns `None` on a mismatch: a short buffer from a custom pixel source should
    /// skip one sprite, not take down the app.
    pub fn new(rgba: Vec<u8>, w: u32, h: u32) -> (bitmap: Option<Bitmap>)
        ensures
            bitmap is Some <==> rgba@.len() == byte_len(w, h),
            bitmap matches Some(b) ==> b.rgba@ == rgba@ && b.w == w && b.h == h && b.wf(),
    {
        let want: u128 = byte_count(w, h);
        if rgba.len() as u128 != want {
            None
        } else {
            Some(Bitmap { rgba, w, h })
        }
    }
}

/// How many bytes a bitmap of a given size takes.
fn byte_count(w: u32, h: u32) -> (n: u128)
    ensures
        n == byte_len(w, h),
{
    assert(0 <= w * h <= 0xffff_ffff * 0xffff_ffff) by (nonlinear_arith)
        requires
            w <= 0xffff_ffff,
            h <= 0xffff_ffff,
    ;
    (w as u128) * (h as u128) * 4
}

// ---- cropping -----------------------------------------------------------------------

/// The pixels of a rectangle of an image that is `iw` pixels wide.
pub open spec fn cropped(data: Seq<u8>, iw: u32, rect: CellRect) -> Seq<u8> {
    raster(
        (rect.x1 - rect.x0) as u32,
        (rect.y1 - rect.y0) as u32,
        |x: int, y: int, c: int| pixel(data, iw as int, rect.x0 + x, rect.y0 + y, c),
    )
}

/// The rectangle that is cropped: the cell, or else the whole image.
pub open spec fn crop_rect(cell: Option<CellRect>, iw: u32, ih: u32) -> CellRect {
    match cell {
        Some(r) => r,
        None => CellRect { x0: 0, y0: 0, x1: iw, y1: ih },
    }
}

/// Whether an image has the pixels of a rectangle: enough bytes for its size, and the
/// rectangle in it.
pub open spec fn croppable(len: nat, iw: u32, ih: u32, rect: CellRect) -> bool {
    rect.x1 <= iw && rect.y1 <= ih && len >= byte_len(iw, ih)
}

/// Copies a rectangle out of RGBA bytes, or `None` if it is out of bounds or the bytes
/// are short.
pub fn crop_rgba(data: &[u8], iw: u32, ih: u32, cell: Option<CellRect>) -> (bitmap: Option<Bitmap>)
    requires
        cell matches Some(r) ==> r.wf(),
    ensures
        bitmap is Some <==> croppable(data@.len(), iw, ih, crop_rect(cell, iw, ih)),
        bitmap matches Some(b) ==> {
            let r = crop_rect(cell, iw, ih);
            &&& b.w == r.x1 - r.x0
            &&& b.h == r.y1 - r.y0
            &&& b.rgba@ == cropped(data@, iw, r)
            &&& b.wf()
        },
{
    let rect = match cell {
        Some(r) => r,
        None => CellRect { x0: 0, y0: 0, x1: iw, y1: ih },
    };
    let cw: u32 = rect.width();
    let ch: u32 = rect.height();
    if rect.x1 > iw || rect.y1 > ih {
        return None;
    }
    if (data.len() as u128) < byte_count(iw, ih) {
        return None;
    }
    let ghost f = |x: int, y: int, c: int| pixel(data@, iw as int, rect.x0 + x, rect.y0 + y, c);
    let ghost want = cropped(data@, iw, rect);
    let mut out: Vec<u8> = Vec::new();
    let mut y: u32 = 0;
    while y < ch
        invariant
            rect.wf(),
            cw == rect.x1 - rect.x0,
            ch == rect.y1 - rect.y0,
            rect.x1 <= iw,
            rect.y1 <= ih,
            usize::MAX >= data@.len() >= byte_len(iw, ih),
            f == (|x: int, y: int, c: int|
                pixel(data@, iw as int, rect.x0 + x, rect.y0 + y, c)),
            want == raster(cw, ch, f),
            y <= ch,
            out@ == want.take(y * cw * 4),
        decreases ch - y,
    {
        let mut x: u32 = 0;
        assert(y * cw * 4 == (y * cw + 0) * 4);
        while x < cw
            invariant
                rect.wf(),
                cw == rect.x1 - rect.x0,
                ch == rect.y1 - rect.y0,
                rect.x1 <= iw,
                rect.y1 <= ih,
                usize::MAX >= data@.len() >= byte_len(iw, ih),
                f == (|x: int, y: int, c: int|
                    pixel(data@, iw as int, rect.x0 + x, rect.y0 + y, c)),
                want == raster(cw, ch, f),
                y < ch,
                x <= cw,
                out@ == want.take((y * cw + x) * 4),
            decreases cw - x,
        {
            let row: usize = (rect.y0 + y) as usize;
            let col: usize = (rect.x0 + x) as usize;
            proof {
                pixel_offset(iw, ih, col as int, row as int, 0);
                pixel_offset(iw, ih, col as int, row as int, 3);
                assert(row * iw >= 0) by (nonlinear_arith);
                assert((rect.y0 + y) * iw == row * iw) by (nonlinear_arith)
                    requires
                        row == rect.y0 + y,
                ;
                raster_grows(cw, ch, f, x as int, y as int);
            }
            let s: usize = (row * (iw as usize) + col) * 4;
            out.push(data[s]);
            out.push(data[s + 1]);
            out.push(data[s + 2]);
            out.push(data[s + 3]);
            x += 1;
        }
        proof {
            row_ends(cw, y as int);
        }
        y += 1;
    }
    assert(want.len() == byte_len(cw, ch));
    assert(ch * cw * 4 == byte_len(cw, ch)) by (nonlinear_arith)
        requires
            byte_len(cw, ch) == cw * ch * 4,
    ;
    assert(want.take(want.len() as int) =~= want);
    Bitmap::new(out, cw, ch)
}

/// Copies CPU pixels out of an in-memory image, optionally cropping an atlas cell.
///
/// Returns `None` if the asset kept no CPU data, which is the normal state for a
/// file-loaded sprite, if its format is not 8-bit RGBA, if the cell is out of bounds, or
/// if the data is short.
pub fn crop_image_rgba(img: &CpuImage, cell: Option<CellRect>) -> (bitmap: Option<Bitmap>)
    requires
        cell matches Some(r) ==> r.wf(),
    ensures
        bitmap is Some <==> {
            &&& img.data is Some
            &&& img.rgba8
            &&& croppable(
                img.data->0@.len(),
                img.width,
                img.height,
                crop_rect(cell, img.width, img.height),
            )
        },
        bitmap matches Some(b) ==> {
            let r = crop_rect(cell, img.width, img.height);
            &&& b.w == r.x1 - r.x0
            &&& b.h == r.y1 - r.y0
            &&& b.rgba@ == cropped(img.data->0@, img.width, r)
            &&& b.wf()
        },
{
    match img.data {
        Some(data) => {
            if img.rgba8 {
                crop_rgba(data, img.width, img.height, cell)
            } else {
                None
            }
        },
        None => None,
    }
}

// ---- filling and tinting ------------------------------------------------------------

/// A bitmap of one colour.
pub open spec fn solid(px: Seq<u8>, w: u32, h: u32) -> Seq<u8> {
    Seq::new(byte_len(w, h), |i: int| px[i % 4])
}

/// Builds a `w`x`h` RGBA tile filled with one pixel, for pathless solid-colour sprites
/// (UI panels, buttons, dividers, and flat-colour effect overlays).
pub fn solid_rgba(px: [u8; 4], w: u32, h: u32) -> (out: Vec<u8>)
    requires
        byte_len(w, h) <= usize::MAX,
    ensures
        out@ == solid(px@, w, h),
{
    let len: usize = byte_count(w, h) as usize;
    let mut out: Vec<u8> = Vec::new();
    let mut i: usize = 0;
    while i < len
        invariant
            len == byte_len(w, h),
            i <= len,
            px@.len() == 4,
            out@ == solid(px@, w, h).take(i as int),
        decreases len - i,
    {
        let v: u8 = px[i % 4];
        out.push(v);
        i += 1;
        assert(solid(px@, w, h).take(i as int) =~= solid(px@, w, h).take(i - 1).push(v));
    }
    assert(solid(px@, w, h).take(len as int) =~= solid(px@, w, h));
    out
}

/// Pixels under a tint. Bytes past the last whole pixel stay.
pub open spec fn tinted_rgba(rgba: Seq<u8>, tint: Tint) -> Seq<u8> {
    Seq::new(
        rgba.len(),
        |i: int|
            if i < rgba.len() / 4 * 4 {
                tint.of(i % 4, rgba[i])
            } else {
                rgba[i]
            },
    )
}

/// Multiplies RGBA pixels in place by a tint.
///
/// Kitty has no per-placement tint, so a sprite's colour has to be baked into the
/// uploaded pixels. That is also why the tint must be part of the cache key.
pub fn apply_tint(rgba: &mut Vec<u8>, tint: &Tint)
    requires
        tint.wf(),
    ensures
        final(rgba)@ == tinted_rgba(old(rgba)@, *tint),
{
    let ghost start = rgba@;
    let whole: usize = rgba.len() / 4 * 4;
    let mut i: usize = 0;
    while i < whole
        invariant
            tint.wf(),
            rgba@.len() == start.len(),
            whole == start.len() / 4 * 4,
            i <= whole,
            i % 4 == 0,
            forall|j: int| 0 <= j < i ==> #[trigger] rgba@[j] == tinted_rgba(start, *tint)[j],
            forall|j: int| i <= j < start.len() ==> #[trigger] rgba@[j] == start[j],
        decreases whole - i,
    {
        let px = tint.pixel(rgba[i], rgba[i + 1], rgba[i + 2], rgba[i + 3]);
        rgba[i] = px[0];
        rgba[i + 1] = px[1];
        rgba[i + 2] = px[2];
        rgba[i + 3] = px[3];
        i += 4;
    }
    assert(rgba@ =~= tinted_rgba(start, *tint));
}

/// Pixels multiplied by quantised levels, each channel by its own. Bytes past the last
/// whole pixel stay.
pub open spec fn levels_tinted(rgba: Seq<u8>, l: Levels) -> Seq<u8> {
    Seq::new(
        rgba.len(),
        |i: int|
            if i < rgba.len() / 4 * 4 {
                tinted(rgba[i] as int, l.channel(i % 4) as int) as u8
            } else {
                rgba[i]
            },
    )
}

/// Multiplies RGBA pixels in place by quantised levels.
pub fn apply_levels(rgba: &mut Vec<u8>, l: &Levels)
    requires
        l.wf(),
    ensures
        final(rgba)@ == levels_tinted(old(rgba)@, *l),
{
    let tint = Tint::of_levels(l);
    apply_tint(rgba, &tint);
    assert(rgba@ =~= levels_tinted(old(rgba)@, *l));
}

// ---- mirroring ----------------------------------------------------------------------

/// A coordinate, mirrored along an axis or not.
pub open spec fn mirrored(v: int, n: int, flip: bool) -> int {
    if flip {
        n - 1 - v
    } else {
        v
    }
}

/// A bitmap mirrored horizontally and/or vertically.
pub open spec fn flipped(rgba: Seq<u8>, w: u32, h: u32, fx: bool, fy: bool) -> Seq<u8> {
    raster(
        w,
        h,
        |x: int, y: int, c: int|
            pixel(rgba, w as int, mirrored(x, w as int, fx), mirrored(y, h as int, fy), c),
    )
}

/// Mirrors an RGBA buffer horizontally and/or vertically.
///
/// Kitty cannot mirror a placement, so a sprite's flip has to be baked into the uploaded
/// pixels, and therefore into its cache key.
pub fn flip_rgba(rgba: &[u8], w: u32, h: u32, fx: bool, fy: bool) -> (out: Vec<u8>)
    requires
        byte_len(w, h) <= rgba@.len(),
    ensures
        out@ == flipped(rgba@, w, h, fx, fy),
{
    let ghost f = |x: int, y: int, c: int|
        pixel(rgba@, w as int, mirrored(x, w as int, fx), mirrored(y, h as int, fy), c);
    let ghost want = flipped(rgba@, w, h, fx, fy);
    let total: usize = rgba.len();
    let mut out: Vec<u8> = Vec::new();
    let mut y: u32 = 0;
    while y < h
        invariant
            byte_len(w, h) <= rgba@.len() == total,
            f == (|x: int, y: int, c: int|
                pixel(rgba@, w as int, mirrored(x, w as int, fx), mirrored(y, h as int, fy), c)),
            want == raster(w, h, f),
            y <= h,
            out@ == want.take(y * w * 4),
        decreases h - y,
    {
        let src_y: u32 = if fy {
            h - 1 - y
        } else {
            y
        };
        let mut x: u32 = 0;
        assert(y * w * 4 == (y * w + 0) * 4);
        while x < w
            invariant
                byte_len(w, h) <= rgba@.len() == total,
                f == (|x: int, y: int, c: int|
                    pixel(
                        rgba@,
                        w as int,
                        mirrored(x, w as int, fx),
                        mirrored(y, h as int, fy),
                        c,
                    )),
                want == raster(w, h, f),
                y < h,
                src_y == mirrored(y as int, h as int, fy),
                x <= w,
                out@ == want.take((y * w + x) * 4),
            decreases w - x,
        {
            let src_x: u32 = if fx {
                w - 1 - x
            } else {
                x
            };
            proof {
                pixel_offset(w, h, src_x as int, src_y as int, 0);
                pixel_offset(w, h, src_x as int, src_y as int, 3);
                assert(src_y * w >= 0) by (nonlinear_arith);
                raster_grows(w, h, f, x as int, y as int);
            }
            let s: usize = ((src_y as usize) * (w as usize) + (src_x as usize)) * 4;
            out.push(rgba[s]);
            out.push(rgba[s + 1]);
            out.push(rgba[s + 2]);
            out.push(rgba[s + 3]);
            x += 1;
        }
        proof {
            row_ends(w, y as int);
        }
        y += 1;
    }
    assert(h * w * 4 == byte_len(w, h)) by (nonlinear_arith)
        requires
            byte_len(w, h) == w * h * 4,
    ;
    assert(want.take(want.len() as int) =~= want);
    out
}

/// Whether a bitmap can be baked and sent: all its pixels are there if it is to be
/// mirrored, and its base64 text fits in memory.
pub open spec fn sendable(b: Bitmap, flip: bool) -> bool {
    &&& flip ==> byte_len(b.w, b.h) <= b.rgba@.len()
    &&& encodable(b.rgba@.len())
}

/// Pixels as they go up: tinted unless the tint is white, and mirrored.
pub open spec fn levels_baked(rgba: Seq<u8>, w: u32, h: u32, l: Levels, fx: bool, fy: bool) -> Seq<
    u8,
> {
    let t = if l.white() {
        rgba
    } else {
        levels_tinted(rgba, l)
    };
    if fx || fy {
        flipped(t, w, h, fx, fy)
    } else {
        t
    }
}

/// Bakes quantised levels and a mirror into pixels. The levels are those that the cache
/// key names, so an uploaded bitmap can never disagree with its key.
pub fn bake_levels(b: Bitmap, l: &Levels, fx: bool, fy: bool) -> (out: Vec<u8>)
    requires
        l.wf(),
        fx || fy ==> byte_len(b.w, b.h) <= b.rgba@.len(),
    ensures
        out@ == levels_baked(b.rgba@, b.w, b.h, *l, fx, fy),
{
    let mut rgba = b.rgba;
    if !l.is_white() {
        apply_levels(&mut rgba, l);
    }
    if fx || fy {
        flip_rgba(rgba.as_slice(), b.w, b.h, fx, fy)
    } else {
        rgba
    }
}

// ---- resampling ---------------------------------------------------------------------

/// The first source coordinate that destination coordinate `d` covers, when `s` source
/// pixels become `n`.
pub open spec fn span_start(d: int, s: int, n: int) -> int {
    d * s / n
}

/// The first source coordinate past what destination coordinate `d` covers.
pub open spec fn span_end(d: int, s: int, n: int) -> int {
    ((d + 1) * s + n - 1) / n
}

/// The source coordinate under the centre of destination coordinate `d`.
pub open spec fn nearest(d: int, s: int, n: int) -> int {
    (2 * d + 1) * s / (2 * n)
}

/// The sum of a channel over the pixels `x0..x1` of a row.
pub open spec fn row_sum(src: Seq<u8>, w: int, y: int, x0: int, x1: int, c: int) -> int
    decreases x1 - x0,
{
    if x1 <= x0 {
        0
    } else {
        row_sum(src, w, y, x0, x1 - 1, c) + pixel(src, w, x1 - 1, y, c)
    }
}

/// The sum of a channel over the box `x0..x1` by `y0..y1`.
pub open spec fn box_sum(src: Seq<u8>, w: int, x0: int, x1: int, y0: int, y1: int, c: int) -> int
    decreases y1 - y0,
{
    if y1 <= y0 {
        0
    } else {
        box_sum(src, w, x0, x1, y0, y1 - 1, c) + row_sum(src, w, y1 - 1, x0, x1, c)
    }
}

/// The mean of a channel over a box, rounded down.
pub open spec fn box_mean(src: Seq<u8>, w: int, x0: int, x1: int, y0: int, y1: int, c: int) -> int {
    box_sum(src, w, x0, x1, y0, y1, c) / ((x1 - x0) * (y1 - y0))
}

/// A channel of a pixel of a resampled bitmap. Shrinking averages the source box that
/// the pixel covers, so that no source pixel is dropped. Growing takes the source pixel
/// under the centre, so that no new colour appears. An empty source gives blank.
pub open spec fn scaled_channel(
    src: Seq<u8>,
    sw: int,
    sh: int,
    dw: int,
    dh: int,
    x: int,
    y: int,
    c: int,
) -> u8 {
    if sw == 0 || sh == 0 {
        0
    } else if dw < sw || dh < sh {
        box_mean(
            src,
            sw,
            span_start(x, sw, dw),
            span_end(x, sw, dw),
            span_start(y, sh, dh),
            span_end(y, sh, dh),
            c,
        ) as u8
    } else {
        pixel(src, sw, nearest(x, sw, dw), nearest(y, sh, dh), c)
    }
}

/// A bitmap resampled to an exact pixel size.
pub open spec fn scaled(src: Seq<u8>, sw: u32, sh: u32, dw: u32, dh: u32) -> Seq<u8> {
    raster(
        dw,
        dh,
        |x: int, y: int, c: int|
            scaled_channel(src, sw as int, sh as int, dw as int, dh as int, x, y, c),
    )
}

/// Every destination coordinate covers at least one source coordinate, and none outside
/// the source.
pub proof fn spans_stay_inside(d: int, s: int, n: int)
    requires
        0 <= d < n,
        s > 0,
    ensures
        0 <= span_start(d, s, n) < span_end(d, s, n) <= s,
        0 <= nearest(d, s, n) < s,
{
    let a = span_start(d, s, n);
    let b = span_end(d, s, n);
    assert(0 <= a) by (nonlinear_arith)
        requires
            a == d * s / n,
            0 <= d,
            s > 0,
            n > 0,
    ;
    assert(a < b) by (nonlinear_arith)
        requires
            a == d * s / n,
            b == ((d + 1) * s + n - 1) / n,
            0 <= d < n,
            s > 0,
    ;
    assert(b <= s) by (nonlinear_arith)
        requires
            b == ((d + 1) * s + n - 1) / n,
            0 <= d < n,
            s > 0,
    ;
    let m = nearest(d, s, n);
    assert(0 <= m < s) by (nonlinear_arith)
        requires
            m == (2 * d + 1) * s / (2 * n),
            0 <= d < n,
            s > 0,
    ;
}

proof fn row_sum_bounds(src: Seq<u8>, w: int, y: int, x0: int, x1: int, c: int)
    requires
        x0 <= x1,
    ensures
        0 <= row_sum(src, w, y, x0, x1, c) <= 255 * (x1 - x0),
    decreases x1 - x0,
{
    if x0 < x1 {
        row_sum_bounds(src, w, y, x0, x1 - 1, c);
    }
}

proof fn box_sum_bounds(src: Seq<u8>, w: int, x0: int, x1: int, y0: int, y1: int, c: int)
    requires
        x0 <= x1,
        y0 <= y1,
    ensures
        0 <= box_sum(src, w, x0, x1, y0, y1, c) <= 255 * ((x1 - x0) * (y1 - y0)),
    decreases y1 - y0,
{
    if y0 < y1 {
        box_sum_bounds(src, w, x0, x1, y0, y1 - 1, c);
        row_sum_bounds(src, w, y1 - 1, x0, x1, c);
    }
    assert((x1 - x0) * (y1 - y0) == (x1 - x0) * (y1 - 1 - y0) + (x1 - x0)) by (nonlinear_arith);
    assert(y0 == y1 ==> (x1 - x0) * (y1 - y0) == 0) by (nonlinear_arith);
}

proof fn box_mean_is_a_byte(src: Seq<u8>, w: int, x0: int, x1: int, y0: int, y1: int, c: int)
    requires
        x0 < x1,
        y0 < y1,
    ensures
        0 <= box_mean(src, w, x0, x1, y0, y1, c) <= 255,
        (x1 - x0) * (y1 - y0) > 0,
{
    box_sum_bounds(src, w, x0, x1, y0, y1, c);
    let n = (x1 - x0) * (y1 - y0);
    let t = box_sum(src, w, x0, x1, y0, y1, c);
    assert(n > 0) by (nonlinear_arith)
        requires
            n == (x1 - x0) * (y1 - y0),
            x0 < x1,
            y0 < y1,
    ;
    assert(0 <= t / n <= 255) by (nonlinear_arith)
        requires
            0 <= t <= 255 * n,
            n > 0,
    ;
}

/// The sums of the four channels over the pixels `x0..x1` of a row.
fn sum_row(src: &[u8], w: u32, h: u32, x0: u32, x1: u32, y: u32) -> (sums: (u64, u64, u64, u64))
    requires
        x0 <= x1 <= w,
        y < h,
        byte_len(w, h) <= src@.len(),
    ensures
        sums.0 == row_sum(src@, w as int, y as int, x0 as int, x1 as int, 0),
        sums.1 == row_sum(src@, w as int, y as int, x0 as int, x1 as int, 1),
        sums.2 == row_sum(src@, w as int, y as int, x0 as int, x1 as int, 2),
        sums.3 == row_sum(src@, w as int, y as int, x0 as int, x1 as int, 3),
{
    let total: usize = src.len();
    let mut sums: (u64, u64, u64, u64) = (0, 0, 0, 0);
    let mut x: u32 = x0;
    while x < x1
        invariant
            x0 <= x <= x1 <= w,
            y < h,
            byte_len(w, h) <= src@.len() == total,
            sums.0 == row_sum(src@, w as int, y as int, x0 as int, x as int, 0),
            sums.1 == row_sum(src@, w as int, y as int, x0 as int, x as int, 1),
            sums.2 == row_sum(src@, w as int, y as int, x0 as int, x as int, 2),
            sums.3 == row_sum(src@, w as int, y as int, x0 as int, x as int, 3),
        decreases x1 - x,
    {
        proof {
            pixel_offset(w, h, x as int, y as int, 0);
            pixel_offset(w, h, x as int, y as int, 3);
            assert(y * w >= 0) by (nonlinear_arith);
            row_sum_bounds(src@, w as int, y as int, x0 as int, x as int, 0);
            row_sum_bounds(src@, w as int, y as int, x0 as int, x as int, 1);
            row_sum_bounds(src@, w as int, y as int, x0 as int, x as int, 2);
            row_sum_bounds(src@, w as int, y as int, x0 as int, x as int, 3);
        }
        let s: usize = ((y as usize) * (w as usize) + (x as usize)) * 4;
        sums = (
            sums.0 + src[s] as u64,
            sums.1 + src[s + 1] as u64,
            sums.2 + src[s + 2] as u64,
            sums.3 + src[s + 3] as u64,
        );
        x += 1;
    }
    sums
}

/// The mean pixel of a box.
fn mean_pixel(src: &[u8], w: u32, h: u32, x0: u32, x1: u32, y0: u32, y1: u32) -> (px: [u8; 4])
    requires
        x0 < x1 <= w,
        y0 < y1 <= h,
        byte_len(w, h) <= src@.len(),
    ensures
        forall|c: int|
            0 <= c < 4 ==> #[trigger] px@[c] == box_mean(
                src@,
                w as int,
                x0 as int,
                x1 as int,
                y0 as int,
                y1 as int,
                c,
            ),
{
    let mut sums: (u128, u128, u128, u128) = (0, 0, 0, 0);
    let mut y: u32 = y0;
    while y < y1
        invariant
            x0 < x1 <= w,
            y0 <= y <= y1 <= h,
            byte_len(w, h) <= src@.len(),
            sums.0 == box_sum(src@, w as int, x0 as int, x1 as int, y0 as int, y as int, 0),
            sums.1 == box_sum(src@, w as int, x0 as int, x1 as int, y0 as int, y as int, 1),
            sums.2 == box_sum(src@, w as int, x0 as int, x1 as int, y0 as int, y as int, 2),
            sums.3 == box_sum(src@, w as int, x0 as int, x1 as int, y0 as int, y as int, 3),
        decreases y1 - y,
    {
        proof {
            box_sum_bounds(src@, w as int, x0 as int, x1 as int, y0 as int, y as int, 0);
            box_sum_bounds(src@, w as int, x0 as int, x1 as int, y0 as int, y as int, 1);
            box_sum_bounds(src@, w as int, x0 as int, x1 as int, y0 as int, y as int, 2);
            box_sum_bounds(src@, w as int, x0 as int, x1 as int, y0 as int, y as int, 3);
            assert((x1 - x0) * (y - y0) <= 0xffff_ffff * 0xffff_ffff) by (nonlinear_arith)
                requires
                    0 <= x1 - x0 <= 0xffff_ffff,
                    0 <= y - y0 <= 0xffff_ffff,
            ;
        }
        let row = sum_row(src, w, h, x0, x1, y);
        sums = (
            sums.0 + row.0 as u128,
            sums.1 + row.1 as u128,
            sums.2 + row.2 as u128,
            sums.3 + row.3 as u128,
        );
        y += 1;
    }
    proof {
        box_mean_is_a_byte(src@, w as int, x0 as int, x1 as int, y0 as int, y1 as int, 0);
        box_mean_is_a_byte(src@, w as int, x0 as int, x1 as int, y0 as int, y1 as int, 1);
        box_mean_is_a_byte(src@, w as int, x0 as int, x1 as int, y0 as int, y1 as int, 2);
        box_mean_is_a_byte(src@, w as int, x0 as int, x1 as int, y0 as int, y1 as int, 3);
        assert((x1 - x0) * (y1 - y0) <= 0xffff_ffff * 0xffff_ffff) by (nonlinear_arith)
            requires
                0 <= x1 - x0 <= 0xffff_ffff,
                0 <= y1 - y0 <= 0xffff_ffff,
        ;
    }
    let n: u128 = ((x1 - x0) as u128) * ((y1 - y0) as u128);
    [(sums.0 / n) as u8, (sums.1 / n) as u8, (sums.2 / n) as u8, (sums.3 / n) as u8]
}

/// The pixel that a resampled bitmap has at a place.
fn scaled_pixel(src: &[u8], sw: u32, sh: u32, dw: u32, dh: u32, x: u32, y: u32) -> (px: [u8; 4])
    requires
        byte_len(sw, sh) <= src@.len(),
        sw > 0,
        sh > 0,
        x < dw,
        y < dh,
    ensures
        forall|c: int|
            0 <= c < 4 ==> #[trigger] px@[c] == scaled_channel(
                src@,
                sw as int,
                sh as int,
                dw as int,
                dh as int,
                x as int,
                y as int,
                c,
            ),
{
    proof {
        spans_stay_inside(x as int, sw as int, dw as int);
        spans_stay_inside(y as int, sh as int, dh as int);
        assert(0 <= x * sw && (x + 1) * sw <= 0xffff_ffff * 0xffff_ffff && (2 * x + 1) * sw
            < 0x1_0000_0000_0000_0000_0000) by (nonlinear_arith)
            requires
                0 <= x < 0xffff_ffff,
                0 <= sw <= 0xffff_ffff,
        ;
        assert(0 <= y * sh && (y + 1) * sh <= 0xffff_ffff * 0xffff_ffff && (2 * y + 1) * sh
            < 0x1_0000_0000_0000_0000_0000) by (nonlinear_arith)
            requires
                0 <= y < 0xffff_ffff,
                0 <= sh <= 0xffff_ffff,
        ;
        assert(x * sw <= (x + 1) * sw && y * sh <= (y + 1) * sh) by (nonlinear_arith)
            requires
                0 <= sw,
                0 <= sh,
        ;
    }
    if dw < sw || dh < sh {
        let x0: u64 = (x as u64) * (sw as u64) / (dw as u64);
        let x1: u64 = (((x as u64) + 1) * (sw as u64) + (dw as u64) - 1) / (dw as u64);
        let y0: u64 = (y as u64) * (sh as u64) / (dh as u64);
        let y1: u64 = (((y as u64) + 1) * (sh as u64) + (dh as u64) - 1) / (dh as u64);
        let px = mean_pixel(src, sw, sh, x0 as u32, x1 as u32, y0 as u32, y1 as u32);
        proof {
            assert forall|c: int| 0 <= c < 4 implies #[trigger] px@[c] == scaled_channel(
                src@,
                sw as int,
                sh as int,
                dw as int,
                dh as int,
                x as int,
                y as int,
                c,
            ) by {
                box_mean_is_a_byte(
                    src@,
                    sw as int,
                    x0 as int,
                    x1 as int,
                    y0 as int,
                    y1 as int,
                    c,
                );
            }
        }
        px
    } else {
        let sx: u128 = (2 * (x as u128) + 1) * (sw as u128) / (2 * (dw as u128));
        let sy: u128 = (2 * (y as u128) + 1) * (sh as u128) / (2 * (dh as u128));
        proof {
            pixel_offset(sw, sh, sx as int, sy as int, 0);
            pixel_offset(sw, sh, sx as int, sy as int, 3);
            assert(sy * sw >= 0) by (nonlinear_arith)
                requires
                    sy >= 0,
                    sw >= 0,
            ;
            assert(src@.len() == src.len());
        }
        let s: usize = ((sy as usize) * (sw as usize) + (sx as usize)) * 4;
        [src[s], src[s + 1], src[s + 2], src[s + 3]]
    }
}

/// Resamples an RGBA buffer to an exact pixel size.
///
/// Needed because kitty's `c`/`r` placement keys size an image in whole CELLS, and cells
/// are not square, so the rounding error differs per axis and small glyphs come out
/// squashed. Glyphs are scaled here to their exact target pixels and placed with `c`/`r`
/// omitted, which kitty draws 1:1.
///
/// Downscaling averages; upscaling samples, to keep pixel art crisp.
pub fn scale_rgba(src: &[u8], sw: u32, sh: u32, dw: u32, dh: u32) -> (out: Vec<u8>)
    requires
        byte_len(sw, sh) <= src@.len(),
        byte_len(dw, dh) <= usize::MAX,
    ensures
        out@ == scaled(src@, sw, sh, dw, dh),
{
    let ghost f = |x: int, y: int, c: int|
        scaled_channel(src@, sw as int, sh as int, dw as int, dh as int, x, y, c);
    let ghost want = scaled(src@, sw, sh, dw, dh);
    if sw == 0 || sh == 0 {
        let out = solid_rgba([0, 0, 0, 0], dw, dh);
        assert(out@ =~= want);
        return out;
    }
    let mut out: Vec<u8> = Vec::new();
    let mut y: u32 = 0;
    while y < dh
        invariant
            byte_len(sw, sh) <= src@.len(),
            sw > 0,
            sh > 0,
            f == (|x: int, y: int, c: int|
                scaled_channel(src@, sw as int, sh as int, dw as int, dh as int, x, y, c)),
            want == raster(dw, dh, f),
            y <= dh,
            out@ == want.take(y * dw * 4),
        decreases dh - y,
    {
        let mut x: u32 = 0;
        assert(y * dw * 4 == (y * dw + 0) * 4);
        while x < dw
            invariant
                byte_len(sw, sh) <= src@.len(),
                sw > 0,
                sh > 0,
                f == (|x: int, y: int, c: int|
                    scaled_channel(src@, sw as int, sh as int, dw as int, dh as int, x, y, c)),
                want == raster(dw, dh, f),
                y < dh,
                x <= dw,
                out@ == want.take((y * dw + x) * 4),
            decreases dw - x,
        {
            let px = scaled_pixel(src, sw, sh, dw, dh, x, y);
            proof {
                raster_grows(dw, dh, f, x as int, y as int);
                assert(px@[0] == f(x as int, y as int, 0));
                assert(px@[1] == f(x as int, y as int, 1));
                assert(px@[2] == f(x as int, y as int, 2));
                assert(px@[3] == f(x as int, y as int, 3));
            }
            out.push(px[0]);
            out.push(px[1]);
            out.push(px[2]);
            out.push(px[3]);
            x += 1;
        }
        proof {
            row_ends(dw, y as int);
        }
        y += 1;
    }
    assert(dh * dw * 4 == byte_len(dw, dh)) by (nonlinear_arith)
        requires
            byte_len(dw, dh) == dw * dh * 4,
    ;
    assert(want.take(want.len() as int) =~= want);
    out
}

// ---- laws ---------------------------------------------------------------------------

/// The pixel that an offset into a bitmap belongs to.
proof fn offset_pixel(w: u32, h: u32, i: int)
    requires
        0 <= i < byte_len(w, h),
    ensures
        0 <= i / 4 % (w as int) < w,
        0 <= i / 4 / (w as int) < h,
        (i / 4 / w as int) * w + i / 4 % w as int == i / 4,
        w > 0,
{
    let p = i / 4;
    assert(w > 0) by (nonlinear_arith)
        requires
            0 <= i < w * h * 4,
            w >= 0,
            h >= 0,
    ;
    vstd::arithmetic::div_mod::lemma_fundamental_div_mod(p, w as int);
    assert((p / w as int) * w == w as int * (p / w as int)) by (nonlinear_arith);
    assert(p < w * h);
    assert(p / w as int <= h - 1) by (nonlinear_arith)
        requires
            w > 0,
            0 <= p < w * h,
            (p / w as int) * w <= p,
    ;
    assert(0 <= p / w as int) by (nonlinear_arith)
        requires
            w > 0,
            0 <= p,
    ;
}

/// A bitmap is determined by its pixels.
proof fn same_pixels_same_bitmap(a: Seq<u8>, b: Seq<u8>, w: u32, h: u32)
    requires
        a.len() == byte_len(w, h),
        b.len() == byte_len(w, h),
        forall|x: int, y: int, c: int|
            0 <= x < w && 0 <= y < h && 0 <= c < 4 ==> #[trigger] pixel(a, w as int, x, y, c)
                == pixel(b, w as int, x, y, c),
    ensures
        a == b,
{
    assert forall|i: int| 0 <= i < a.len() implies a[i] == b[i] by {
        offset_pixel(w, h, i);
        let x = i / 4 % w as int;
        let y = i / 4 / w as int;
        assert(pixel(a, w as int, x, y, i % 4) == pixel(b, w as int, x, y, i % 4));
    }
    assert(a =~= b);
}

/// Mirroring twice the same way gives the bitmap back.
pub proof fn flipping_twice_restores(rgba: Seq<u8>, w: u32, h: u32, fx: bool, fy: bool)
    requires
        rgba.len() == byte_len(w, h),
    ensures
        flipped(flipped(rgba, w, h, fx, fy), w, h, fx, fy) == rgba,
{
    let once = flipped(rgba, w, h, fx, fy);
    let twice = flipped(once, w, h, fx, fy);
    let f = |x: int, y: int, c: int|
        pixel(rgba, w as int, mirrored(x, w as int, fx), mirrored(y, h as int, fy), c);
    let g = |x: int, y: int, c: int|
        pixel(once, w as int, mirrored(x, w as int, fx), mirrored(y, h as int, fy), c);
    assert forall|x: int, y: int, c: int|
        0 <= x < w && 0 <= y < h && 0 <= c < 4 implies #[trigger] pixel(twice, w as int, x, y, c)
        == pixel(rgba, w as int, x, y, c) by {
        raster_pixel(w, h, g, x, y, c);
        raster_pixel(w, h, f, mirrored(x, w as int, fx), mirrored(y, h as int, fy), c);
    }
    same_pixels_same_bitmap(twice, rgba, w, h);
}

/// Mirroring both ways is a rotation by half a turn: the pixels in reverse order.
pub proof fn flipping_both_ways_rotates(rgba: Seq<u8>, w: u32, h: u32, p: int, c: int)
    requires
        rgba.len() == byte_len(w, h),
        0 <= p < w * h,
        0 <= c < 4,
    ensures
        flipped(rgba, w, h, true, true)[p * 4 + c] == rgba[(w * h - 1 - p) * 4 + c],
{
    let i = p * 4 + c;
    offset_pixel(w, h, i);
    let x = p % w as int;
    let y = p / w as int;
    assert((h - 1 - y) * w + (w - 1 - x) == w * h - 1 - (y * w + x)) by (nonlinear_arith);
}

/// Without a mirror nothing changes, and a single row looks the same upside down.
pub proof fn flipping_a_row_upside_down_changes_nothing(rgba: Seq<u8>, w: u32, h: u32, fy: bool)
    requires
        rgba.len() == byte_len(w, h),
        h == 1 || !fy,
    ensures
        flipped(rgba, w, h, false, fy) == rgba,
{
    let out = flipped(rgba, w, h, false, fy);
    let f = |x: int, y: int, c: int|
        pixel(rgba, w as int, mirrored(x, w as int, false), mirrored(y, h as int, fy), c);
    assert forall|x: int, y: int, c: int|
        0 <= x < w && 0 <= y < h && 0 <= c < 4 implies #[trigger] pixel(out, w as int, x, y, c)
        == pixel(rgba, w as int, x, y, c) by {
        raster_pixel(w, h, f, x, y, c);
    }
    same_pixels_same_bitmap(out, rgba, w, h);
}

/// Cropping to the whole image copies it.
pub proof fn cropping_to_the_whole_copies(data: Seq<u8>, iw: u32, ih: u32)
    requires
        data.len() >= byte_len(iw, ih),
    ensures
        cropped(data, iw, crop_rect(None, iw, ih)) == data.take(byte_len(iw, ih) as int),
{
    let rect = crop_rect(None, iw, ih);
    let out = cropped(data, iw, rect);
    let whole = data.take(byte_len(iw, ih) as int);
    let f = |x: int, y: int, c: int| pixel(data, iw as int, rect.x0 + x, rect.y0 + y, c);
    assert forall|x: int, y: int, c: int|
        0 <= x < iw && 0 <= y < ih && 0 <= c < 4 implies #[trigger] pixel(out, iw as int, x, y, c)
        == pixel(whole, iw as int, x, y, c) by {
        raster_pixel(iw, ih, f, x, y, c);
        pixel_offset(iw, ih, x, y, c);
        assert((0 + y) * iw + (0 + x) == y * iw + x);
    }
    same_pixels_same_bitmap(out, whole, iw, ih);
}

/// Growing a bitmap invents no colour: every pixel of the result is a pixel of the
/// source.
pub proof fn growing_invents_no_colour(
    src: Seq<u8>,
    sw: u32,
    sh: u32,
    dw: u32,
    dh: u32,
    x: int,
    y: int,
) -> (at: (int, int))
    requires
        0 < sw <= dw,
        0 < sh <= dh,
        0 <= x < dw,
        0 <= y < dh,
    ensures
        0 <= at.0 < sw,
        0 <= at.1 < sh,
        forall|c: int|
            0 <= c < 4 ==> #[trigger] pixel(scaled(src, sw, sh, dw, dh), dw as int, x, y, c)
                == pixel(src, sw as int, at.0, at.1, c),
{
    spans_stay_inside(x, sw as int, dw as int);
    spans_stay_inside(y, sh as int, dh as int);
    let f = |x: int, y: int, c: int|
        scaled_channel(src, sw as int, sh as int, dw as int, dh as int, x, y, c);
    let at = (nearest(x, sw as int, dw as int), nearest(y, sh as int, dh as int));
    assert forall|c: int| 0 <= c < 4 implies #[trigger] pixel(
        scaled(src, sw, sh, dw, dh),
        dw as int,
        x,
        y,
        c,
    ) == pixel(src, sw as int, at.0, at.1, c) by {
        raster_pixel(dw, dh, f, x, y, c);
    }
    at
}

/// Resampling to the same size copies the bitmap.
pub proof fn scaling_to_the_same_size_copies(src: Seq<u8>, w: u32, h: u32)
    requires
        src.len() == byte_len(w, h),
    ensures
        scaled(src, w, h, w, h) == src,
{
    let out = scaled(src, w, h, w, h);
    let f = |x: int, y: int, c: int|
        scaled_channel(src, w as int, h as int, w as int, h as int, x, y, c);
    assert forall|x: int, y: int, c: int|
        0 <= x < w && 0 <= y < h && 0 <= c < 4 implies #[trigger] pixel(out, w as int, x, y, c)
        == pixel(src, w as int, x, y, c) by {
        raster_pixel(w, h, f, x, y, c);
        same_size_is_nearest(x, w as int);
        same_size_is_nearest(y, h as int);
    }
    same_pixels_same_bitmap(out, src, w, h);
}

/// Shrinking drops nothing: every source coordinate is covered by a destination
/// coordinate, so every source pixel counts towards some average.
pub proof fn shrinking_drops_nothing(v: int, s: int, n: int) -> (d: int)
    requires
        0 <= v < s,
        n > 0,
    ensures
        0 <= d < n,
        span_start(d, s, n) <= v < span_end(d, s, n),
{
    let d = v * n / s;
    assert(0 <= d < n) by (nonlinear_arith)
        requires
            d == v * n / s,
            0 <= v < s,
            n > 0,
    ;
    let a = span_start(d, s, n);
    let b = span_end(d, s, n);
    assert(d * s <= v * n < (d + 1) * s) by (nonlinear_arith)
        requires
            d == v * n / s,
            0 <= v < s,
            n > 0,
    ;
    assert(a <= v) by (nonlinear_arith)
        requires
            a == d * s / n,
            d * s <= v * n,
            n > 0,
    ;
    assert(v < b) by (nonlinear_arith)
        requires
            b == ((d + 1) * s + n - 1) / n,
            v * n < (d + 1) * s,
            n > 0,
    ;
    d
}

/// An average lies between the least and the greatest value that it is taken over.
pub proof fn averages_stay_in_range(
    src: Seq<u8>,
    w: int,
    x0: int,
    x1: int,
    y0: int,
    y1: int,
    c: int,
    lo: int,
    hi: int,
)
    requires
        x0 < x1,
        y0 < y1,
        forall|x: int, y: int|
            x0 <= x < x1 && y0 <= y < y1 ==> lo <= #[trigger] pixel(src, w, x, y, c) <= hi,
    ensures
        lo <= box_mean(src, w, x0, x1, y0, y1, c) <= hi,
{
    box_sum_in_range(src, w, x0, x1, y0, y1, c, lo, hi);
    let n = (x1 - x0) * (y1 - y0);
    let t = box_sum(src, w, x0, x1, y0, y1, c);
    assert(n > 0) by (nonlinear_arith)
        requires
            n == (x1 - x0) * (y1 - y0),
            x0 < x1,
            y0 < y1,
    ;
    assert(lo <= t / n <= hi) by (nonlinear_arith)
        requires
            lo * n <= t <= hi * n,
            n > 0,
    ;
}

proof fn row_sum_in_range(
    src: Seq<u8>,
    w: int,
    y: int,
    x0: int,
    x1: int,
    c: int,
    lo: int,
    hi: int,
)
    requires
        x0 <= x1,
        forall|x: int| x0 <= x < x1 ==> lo <= #[trigger] pixel(src, w, x, y, c) <= hi,
    ensures
        lo * (x1 - x0) <= row_sum(src, w, y, x0, x1, c) <= hi * (x1 - x0),
    decreases x1 - x0,
{
    if x0 < x1 {
        row_sum_in_range(src, w, y, x0, x1 - 1, c, lo, hi);
        assert(lo <= pixel(src, w, x1 - 1, y, c) <= hi);
    }
    assert(lo * (x1 - x0) == lo * (x1 - 1 - x0) + lo) by (nonlinear_arith);
    assert(hi * (x1 - x0) == hi * (x1 - 1 - x0) + hi) by (nonlinear_arith);
    assert(x0 == x1 ==> lo * (x1 - x0) == 0 && hi * (x1 - x0) == 0) by (nonlinear_arith);
}

proof fn box_sum_in_range(
    src: Seq<u8>,
    w: int,
    x0: int,
    x1: int,
    y0: int,
    y1: int,
    c: int,
    lo: int,
    hi: int,
)
    requires
        x0 <= x1,
        y0 <= y1,
        forall|x: int, y: int|
            x0 <= x < x1 && y0 <= y < y1 ==> lo <= #[trigger] pixel(src, w, x, y, c) <= hi,
    ensures
        lo * ((x1 - x0) * (y1 - y0)) <= box_sum(src, w, x0, x1, y0, y1, c),
        box_sum(src, w, x0, x1, y0, y1, c) <= hi * ((x1 - x0) * (y1 - y0)),
    decreases y1 - y0,
{
    if y0 < y1 {
        box_sum_in_range(src, w, x0, x1, y0, y1 - 1, c, lo, hi);
        row_sum_in_range(src, w, y1 - 1, x0, x1, c, lo, hi);
    }
    let n = x1 - x0;
    let m = y1 - y0;
    assert(lo * (n * m) == lo * (n * (m - 1)) + lo * n) by (nonlinear_arith);
    assert(hi * (n * m) == hi * (n * (m - 1)) + hi * n) by (nonlinear_arith);
    assert(m == 0 ==> lo * (n * m) == 0 && hi * (n * m) == 0) by (nonlinear_arith);
}

proof fn same_size_is_nearest(d: int, n: int)
    requires
        0 <= d < n,
    ensures
        nearest(d, n, n) == d,
{
    let m = (2 * d + 1) * n;
    assert(m == d * (2 * n) + n) by (nonlinear_arith)
        requires
            m == (2 * d + 1) * n,
    ;
    lemma_fundamental_div_mod_converse(m, 2 * n, d, n);
}

// ---- where every pixel goes ---------------------------------------------------------

/// Mirroring sideways swaps the pixels of every row end for end and keeps the rows where
/// they are; mirroring upside down swaps the rows and keeps every pixel in its column. The
/// four channels of a pixel stay together.
pub proof fn mirroring_moves_each_pixel(
    rgba: Seq<u8>,
    w: u32,
    h: u32,
    fx: bool,
    fy: bool,
    x: int,
    y: int,
    c: int,
)
    requires
        0 <= x < w,
        0 <= y < h,
        0 <= c < 4,
    ensures
        ({
            let out = flipped(rgba, w, h, fx, fy);
            &&& out.len() == 4 * (w * h)
            &&& fx && !fy ==> out[4 * (y * w + x) + c] == rgba[4 * (y * w + (w - 1 - x)) + c]
            &&& !fx && fy ==> out[4 * (y * w + x) + c] == rgba[4 * ((h - 1 - y) * w + x) + c]
            &&& fx && fy ==> out[4 * (y * w + x) + c] == rgba[4 * ((h - 1 - y) * w + (w - 1 - x))
                + c]
            &&& !fx && !fy ==> out[4 * (y * w + x) + c] == rgba[4 * (y * w + x) + c]
        }),
{
    let f = |x: int, y: int, c: int|
        pixel(rgba, w as int, mirrored(x, w as int, fx), mirrored(y, h as int, fy), c);
    raster_pixel(w, h, f, x, y, c);
}

/// Mirroring both ways is mirroring one way and then the other, in either order.
pub proof fn mirroring_both_ways_is_one_and_then_the_other(rgba: Seq<u8>, w: u32, h: u32)
    requires
        rgba.len() == 4 * (w * h),
    ensures
        flipped(flipped(rgba, w, h, true, false), w, h, false, true) == flipped(
            rgba,
            w,
            h,
            true,
            true,
        ),
        flipped(flipped(rgba, w, h, false, true), w, h, true, false) == flipped(
            rgba,
            w,
            h,
            true,
            true,
        ),
{
    let sideways = flipped(rgba, w, h, true, false);
    let down = flipped(rgba, w, h, false, true);
    let one = flipped(sideways, w, h, false, true);
    let other = flipped(down, w, h, true, false);
    let both = flipped(rgba, w, h, true, true);
    assert forall|x: int, y: int, c: int|
        0 <= x < w && 0 <= y < h && 0 <= c < 4 implies #[trigger] pixel(one, w as int, x, y, c)
        == pixel(both, w as int, x, y, c) && pixel(other, w as int, x, y, c) == pixel(
        both,
        w as int,
        x,
        y,
        c,
    ) by {
        mirroring_moves_each_pixel(sideways, w, h, false, true, x, y, c);
        mirroring_moves_each_pixel(rgba, w, h, true, false, x, h - 1 - y, c);
        mirroring_moves_each_pixel(down, w, h, true, false, x, y, c);
        mirroring_moves_each_pixel(rgba, w, h, false, true, w - 1 - x, y, c);
        mirroring_moves_each_pixel(rgba, w, h, true, true, x, y, c);
    }
    same_pixels_same_bitmap(one, both, w, h);
    assert forall|x: int, y: int, c: int|
        0 <= x < w && 0 <= y < h && 0 <= c < 4 implies #[trigger] pixel(other, w as int, x, y, c)
        == pixel(both, w as int, x, y, c) by {
        assert(pixel(one, w as int, x, y, c) == pixel(both, w as int, x, y, c));
    }
    same_pixels_same_bitmap(other, both, w, h);
}

/// A crop is as big as its rectangle, and its pixel at `(x, y)` is the pixel of the image
/// that lies as far from the rectangle's first corner.
pub proof fn cropping_keeps_each_pixel(
    data: Seq<u8>,
    iw: u32,
    rect: CellRect,
    x: int,
    y: int,
    c: int,
)
    requires
        0 <= x < rect.x1 - rect.x0,
        0 <= y < rect.y1 - rect.y0,
        0 <= c < 4,
    ensures
        cropped(data, iw, rect).len() == 4 * ((rect.x1 - rect.x0) * (rect.y1 - rect.y0)),
        cropped(data, iw, rect)[4 * (y * (rect.x1 - rect.x0) + x) + c] == data[4 * ((rect.y0 + y)
            * iw + (rect.x0 + x)) + c],
{
    let f = |x: int, y: int, c: int| pixel(data, iw as int, rect.x0 + x, rect.y0 + y, c);
    raster_pixel((rect.x1 - rect.x0) as u32, (rect.y1 - rect.y0) as u32, f, x, y, c);
}

/// Without a cell the whole image is cropped. A rectangle can be cropped from an image if
/// and only if it does not reach past the image's edges and the image has four bytes for
/// each of its pixels, and then every byte that is read is there.
pub proof fn cropping_stays_inside(len: nat, iw: u32, ih: u32, cell: Option<CellRect>)
    requires
        cell matches Some(r) ==> r.x0 <= r.x1 && r.y0 <= r.y1,
    ensures
        ({
            let r = crop_rect(cell, iw, ih);
            &&& cell is None ==> r.x0 == 0 && r.y0 == 0 && r.x1 == iw && r.y1 == ih
            &&& cell matches Some(q) ==> r == q
            &&& croppable(len, iw, ih, r) <==> r.x1 <= iw && r.y1 <= ih && 4 * (iw * ih) <= len
            &&& croppable(len, iw, ih, r) ==> forall|x: int, y: int, c: int|
                r.x0 <= x < r.x1 && r.y0 <= y < r.y1 && 0 <= c < 4 ==> 0 <= #[trigger] (4 * (y * iw
                    + x) + c) < len
        }),
{
    let r = crop_rect(cell, iw, ih);
    if croppable(len, iw, ih, r) {
        assert forall|x: int, y: int, c: int|
            r.x0 <= x < r.x1 && r.y0 <= y < r.y1 && 0 <= c < 4 implies 0 <= #[trigger] (4 * (y * iw
            + x) + c) < len by {
            pixel_offset(iw, ih, x, y, c);
        }
    }
}

/// Every pixel of a flat tile is the pixel that it is filled with.
pub proof fn filling_repeats_the_pixel(px: Seq<u8>, w: u32, h: u32, p: int, c: int)
    requires
        0 <= p < w * h,
        0 <= c < 4,
    ensures
        solid(px, w, h).len() == 4 * (w * h),
        solid(px, w, h)[4 * p + c] == px[c],
{
}

/// The level of a channel of a pixel, red first.
pub open spec fn level_at(l: Levels, c: int) -> int {
    seq![l.r, l.g, l.b, l.a][c] as int
}

/// Whether a byte is nearest to `q` fifteenths of a value.
pub open spec fn is_nearest(out: u8, v: u8, q: int) -> bool {
    2 * v * q - 15 <= 30 * out <= 2 * v * q + 15
}

/// Tinting scales each channel of each pixel by its own level, rounded to the nearest, and
/// changes nothing else: not how many bytes there are, and not those past the last pixel.
pub proof fn tinting_scales_each_channel(rgba: Seq<u8>, l: Levels, p: int, c: int)
    requires
        l.wf(),
        0 <= p,
        0 <= c < 4,
        4 * p + c < rgba.len(),
    ensures
        levels_tinted(rgba, l).len() == rgba.len(),
        4 * p + 4 <= rgba.len() ==> is_nearest(
            levels_tinted(rgba, l)[4 * p + c],
            rgba[4 * p + c],
            level_at(l, c),
        ),
        4 * p + 4 > rgba.len() ==> levels_tinted(rgba, l)[4 * p + c] == rgba[4 * p + c],
{
    let v = rgba[4 * p + c];
    let q = level_at(l, c);
    tints_are_nearest(v, q);
    assert(l.channel(c) == q);
    assert((4 * p + c) % 4 == c);
}

proof fn tints_are_nearest(v: u8, q: int)
    requires
        0 <= q <= 15,
    ensures
        0 <= tinted(v as int, q) <= 255,
        is_nearest(tinted(v as int, q) as u8, v, q),
{
    let n = 2 * v * q;
    assert(0 <= n <= 7650) by (nonlinear_arith)
        requires
            n == 2 * v * q,
            0 <= v <= 255,
            0 <= q <= 15,
    ;
    assert(tinted(v as int, q) == (n + 15) / 30);
}

/// A table tint looks each channel of each pixel up in the table of that channel, and
/// leaves the bytes past the last pixel alone.
pub proof fn tables_tint_each_channel(rgba: Seq<u8>, tint: Tint, p: int, c: int)
    requires
        0 <= p,
        0 <= c < 4,
        4 * p + c < rgba.len(),
    ensures
        tinted_rgba(rgba, tint).len() == rgba.len(),
        4 * p + 4 <= rgba.len() ==> tinted_rgba(rgba, tint)[4 * p + c] == tint.of(
            c,
            rgba[4 * p + c],
        ),
        4 * p + 4 > rgba.len() ==> tinted_rgba(rgba, tint)[4 * p + c] == rgba[4 * p + c],
{
    assert((4 * p + c) % 4 == c);
}

/// What is baked: the pixel at `(x, y)` is the source pixel on the mirrored side, each
/// channel scaled by its own level, rounded to the nearest. White leaves it as it is.
pub proof fn baking_tints_and_moves_each_pixel(
    rgba: Seq<u8>,
    w: u32,
    h: u32,
    l: Levels,
    fx: bool,
    fy: bool,
    x: int,
    y: int,
    c: int,
)
    requires
        l.wf(),
        rgba.len() == 4 * (w * h),
        0 <= x < w,
        0 <= y < h,
        0 <= c < 4,
    ensures
        ({
            let out = levels_baked(rgba, w, h, l, fx, fy);
            let sx = if fx {
                w - 1 - x
            } else {
                x
            };
            let sy = if fy {
                h - 1 - y
            } else {
                y
            };
            &&& out.len() == rgba.len()
            &&& is_nearest(out[4 * (y * w + x) + c], rgba[4 * (sy * w + sx) + c], level_at(l, c))
            &&& level_at(l, c) == 15 ==> out[4 * (y * w + x) + c] == rgba[4 * (sy * w + sx) + c]
        }),
{
    let t = if l.white() {
        rgba
    } else {
        levels_tinted(rgba, l)
    };
    let sx = if fx {
        w - 1 - x
    } else {
        x
    };
    let sy = if fy {
        h - 1 - y
    } else {
        y
    };
    mirroring_moves_each_pixel(t, w, h, fx, fy, x, y, c);
    pixel_offset(w, h, sx, sy, c);
    pixel_offset(w, h, x, y, c);
    tinting_scales_each_channel(rgba, l, sy * w + sx, c);
    assert(l.white() ==> level_at(l, c) == 15);
}

// ---- what resampling keeps ----------------------------------------------------------

/// A sum over a box counts every pixel of it once: nothing for an empty box, the byte for a
/// box of one pixel, and for a box cut in two, across or along, the sums of the parts.
pub proof fn sums_count_each_pixel_once(
    src: Seq<u8>,
    w: int,
    x0: int,
    x1: int,
    y0: int,
    y1: int,
    c: int,
    cut: int,
)
    requires
        x0 <= x1,
        y0 <= y1,
    ensures
        x0 == x1 || y0 == y1 ==> box_sum(src, w, x0, x1, y0, y1, c) == 0,
        x1 == x0 + 1 && y1 == y0 + 1 ==> box_sum(src, w, x0, x1, y0, y1, c) == src[4 * (y0 * w + x0)
            + c],
        x0 <= cut <= x1 ==> box_sum(src, w, x0, x1, y0, y1, c) == box_sum(
            src,
            w,
            x0,
            cut,
            y0,
            y1,
            c,
        ) + box_sum(src, w, cut, x1, y0, y1, c),
        y0 <= cut <= y1 ==> box_sum(src, w, x0, x1, y0, y1, c) == box_sum(
            src,
            w,
            x0,
            x1,
            y0,
            cut,
            c,
        ) + box_sum(src, w, x0, x1, cut, y1, c),
{
    if x0 == x1 {
        empty_columns_sum_to_nothing(src, w, x0, y0, y1, c);
    }
    if x1 == x0 + 1 && y1 == y0 + 1 {
        assert(row_sum(src, w, y0, x0, x0, c) == 0);
        assert(row_sum(src, w, y0, x0, x1, c) == pixel(src, w, x0, y0, c));
        assert(box_sum(src, w, x0, x1, y0, y0, c) == 0);
    }
    if x0 <= cut <= x1 {
        boxes_join_sideways(src, w, x0, cut, x1, y0, y1, c);
    }
    if y0 <= cut <= y1 {
        boxes_join_downwards(src, w, x0, x1, y0, cut, y1, c);
    }
}

proof fn empty_columns_sum_to_nothing(src: Seq<u8>, w: int, x: int, y0: int, y1: int, c: int)
    ensures
        box_sum(src, w, x, x, y0, y1, c) == 0,
    decreases y1 - y0,
{
    if y0 < y1 {
        empty_columns_sum_to_nothing(src, w, x, y0, y1 - 1, c);
    }
}

proof fn rows_join(src: Seq<u8>, w: int, y: int, x0: int, cut: int, x1: int, c: int)
    requires
        x0 <= cut <= x1,
    ensures
        row_sum(src, w, y, x0, x1, c) == row_sum(src, w, y, x0, cut, c) + row_sum(
            src,
            w,
            y,
            cut,
            x1,
            c,
        ),
    decreases x1 - cut,
{
    if cut < x1 {
        rows_join(src, w, y, x0, cut, x1 - 1, c);
    }
}

proof fn boxes_join_sideways(
    src: Seq<u8>,
    w: int,
    x0: int,
    cut: int,
    x1: int,
    y0: int,
    y1: int,
    c: int,
)
    requires
        x0 <= cut <= x1,
        y0 <= y1,
    ensures
        box_sum(src, w, x0, x1, y0, y1, c) == box_sum(src, w, x0, cut, y0, y1, c) + box_sum(
            src,
            w,
            cut,
            x1,
            y0,
            y1,
            c,
        ),
    decreases y1 - y0,
{
    if y0 < y1 {
        boxes_join_sideways(src, w, x0, cut, x1, y0, y1 - 1, c);
        rows_join(src, w, y1 - 1, x0, cut, x1, c);
    }
}

proof fn boxes_join_downwards(
    src: Seq<u8>,
    w: int,
    x0: int,
    x1: int,
    y0: int,
    cut: int,
    y1: int,
    c: int,
)
    requires
        x0 <= x1,
        y0 <= cut <= y1,
    ensures
        box_sum(src, w, x0, x1, y0, y1, c) == box_sum(src, w, x0, x1, y0, cut, c) + box_sum(
            src,
            w,
            x0,
            x1,
            cut,
            y1,
            c,
        ),
    decreases y1 - cut,
{
    if cut < y1 {
        boxes_join_downwards(src, w, x0, x1, y0, cut, y1 - 1, c);
    }
}

/// Whether `from..to` are the source coordinates that destination coordinate `d` touches
/// when `s` source pixels become `n`: those that `d * s / n .. (d + 1) * s / n` reaches into.
pub open spec fn touches(d: int, s: int, n: int, from: int, to: int) -> bool {
    &&& from * n <= d * s < (from + 1) * n
    &&& (to - 1) * n < (d + 1) * s <= to * n
}

proof fn spans_touch(d: int, s: int, n: int)
    requires
        0 <= d < n,
        s > 0,
    ensures
        touches(d, s, n, span_start(d, s, n), span_end(d, s, n)),
{
    let (a, b) = (span_start(d, s, n), span_end(d, s, n));
    let (p, q) = (d * s, (d + 1) * s);
    vstd::arithmetic::div_mod::lemma_fundamental_div_mod(p, n);
    vstd::arithmetic::div_mod::lemma_fundamental_div_mod(q + n - 1, n);
    assert(a * n <= p < (a + 1) * n) by (nonlinear_arith)
        requires
            p == n * a + p % n,
            0 <= p % n < n,
    ;
    assert((b - 1) * n < q <= b * n) by (nonlinear_arith)
        requires
            q + n - 1 == n * b + (q + n - 1) % n,
            0 <= (q + n - 1) % n < n,
    ;
}

/// A bitmap that shrinks along either axis is averaged: the pixel at `(x, y)` is the mean,
/// rounded down, of all source pixels that it touches, columns by the widths and rows by
/// the heights, each channel for itself.
pub proof fn shrinking_averages_what_a_pixel_touches(
    src: Seq<u8>,
    sw: u32,
    sh: u32,
    dw: u32,
    dh: u32,
    x: int,
    y: int,
    c: int,
) -> (at: ((int, int), (int, int)))
    requires
        0 < sw,
        0 < sh,
        dw < sw || dh < sh,
        0 <= x < dw,
        0 <= y < dh,
        0 <= c < 4,
    ensures
        ({
            let ((x0, x1), (y0, y1)) = at;
            let out = scaled(src, sw, sh, dw, dh);
            let total = box_sum(src, sw as int, x0, x1, y0, y1, c);
            let n = (x1 - x0) * (y1 - y0);
            let mean = out[4 * (y * dw + x) + c];
            &&& out.len() == 4 * (dw * dh)
            &&& 0 <= x0 < x1 <= sw
            &&& 0 <= y0 < y1 <= sh
            &&& touches(x, sw as int, dw as int, x0, x1)
            &&& touches(y, sh as int, dh as int, y0, y1)
            &&& mean * n <= total < (mean + 1) * n
        }),
{
    let (x0, x1) = (span_start(x, sw as int, dw as int), span_end(x, sw as int, dw as int));
    let (y0, y1) = (span_start(y, sh as int, dh as int), span_end(y, sh as int, dh as int));
    spans_stay_inside(x, sw as int, dw as int);
    spans_stay_inside(y, sh as int, dh as int);
    spans_touch(x, sw as int, dw as int);
    spans_touch(y, sh as int, dh as int);
    box_mean_is_a_byte(src, sw as int, x0, x1, y0, y1, c);
    let f = |x: int, y: int, c: int|
        scaled_channel(src, sw as int, sh as int, dw as int, dh as int, x, y, c);
    raster_pixel(dw, dh, f, x, y, c);
    let n = (x1 - x0) * (y1 - y0);
    let total = box_sum(src, sw as int, x0, x1, y0, y1, c);
    vstd::arithmetic::div_mod::lemma_fundamental_div_mod(total, n);
    let mean = total / n;
    assert(mean * n <= total < (mean + 1) * n) by (nonlinear_arith)
        requires
            total == n * mean + total % n,
            0 <= total % n < n,
    ;
    ((x0, x1), (y0, y1))
}

/// Whether a source coordinate lies under the centre of destination coordinate `d` when `s`
/// source pixels become `n`.
pub open spec fn under_centre(d: int, s: int, n: int, at: int) -> bool {
    2 * n * at <= (2 * d + 1) * s < 2 * n * (at + 1)
}

/// A bitmap that shrinks along neither axis is sampled: the pixel at `(x, y)` is the source
/// pixel under its centre, whole, columns by the widths and rows by the heights.
pub proof fn growing_samples_under_the_centre(
    src: Seq<u8>,
    sw: u32,
    sh: u32,
    dw: u32,
    dh: u32,
    x: int,
    y: int,
    c: int,
) -> (at: (int, int))
    requires
        0 < sw <= dw,
        0 < sh <= dh,
        0 <= x < dw,
        0 <= y < dh,
        0 <= c < 4,
    ensures
        ({
            let out = scaled(src, sw, sh, dw, dh);
            &&& out.len() == 4 * (dw * dh)
            &&& 0 <= at.0 < sw
            &&& 0 <= at.1 < sh
            &&& under_centre(x, sw as int, dw as int, at.0)
            &&& under_centre(y, sh as int, dh as int, at.1)
            &&& out[4 * (y * dw + x) + c] == src[4 * (at.1 * sw + at.0) + c]
        }),
{
    spans_stay_inside(x, sw as int, dw as int);
    spans_stay_inside(y, sh as int, dh as int);
    let f = |x: int, y: int, c: int|
        scaled_channel(src, sw as int, sh as int, dw as int, dh as int, x, y, c);
    raster_pixel(dw, dh, f, x, y, c);
    centres_are_nearest(x, sw as int, dw as int);
    centres_are_nearest(y, sh as int, dh as int);
    (nearest(x, sw as int, dw as int), nearest(y, sh as int, dh as int))
}

proof fn centres_are_nearest(d: int, s: int, n: int)
    requires
        0 <= d < n,
        s > 0,
    ensures
        under_centre(d, s, n, nearest(d, s, n)),
{
    let m = nearest(d, s, n);
    let p = (2 * d + 1) * s;
    vstd::arithmetic::div_mod::lemma_fundamental_div_mod(p, 2 * n);
    assert(2 * n * m <= p < 2 * n * (m + 1)) by (nonlinear_arith)
        requires
            p == (2 * n) * m + p % (2 * n),
            0 <= p % (2 * n) < 2 * n,
    ;
}

/// An empty bitmap resamples to blank, of whatever size.
pub proof fn nothing_resamples_to_blank(src: Seq<u8>, sw: u32, sh: u32, dw: u32, dh: u32, i: int)
    requires
        sw == 0 || sh == 0,
        0 <= i < 4 * (dw * dh),
    ensures
        scaled(src, sw, sh, dw, dh).len() == 4 * (dw * dh),
        scaled(src, sw, sh, dw, dh)[i] == 0,
{
}

/// A bitmap takes four bytes for each pixel.
pub proof fn a_pixel_is_four_bytes(w: u32, h: u32)
    ensures
        byte_len(w, h) == 4 * (w * h),
        byte_len(w, h) == byte_len(h, w),
{
    assert(w * h == h * w) by (nonlinear_arith);
}

} // verus!
