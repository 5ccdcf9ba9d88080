//! Turning the bytes of an image file into an RGBA8 buffer no larger than
//! `MAX_SIDE` pixels on either side.
use vstd::prelude::*;

use crate::viewer::DecodedImage;

verus! {

/// Neither side of a decoded buffer exceeds this many pixels.
pub const MAX_SIDE: u32 = 2000;

/// What zune-jpeg's decoder gives for these bytes: RGB pixels, width, height.
pub uninterp spec fn jpeg_decoded(data: Seq<u8>) -> Option<(Seq<u8>, u16, u16)>;

/// What the image crate's format-guessing decoder gives for these bytes,
/// converted to RGBA8: pixels, width, height.
pub uninterp spec fn image_decoded(data: Seq<u8>) -> Option<(Seq<u8>, u32, u32)>;

/// The pixels of the image crate's box-filtered thumbnail of an RGBA8 buffer.
pub uninterp spec fn thumbnail_pixels(
    pixels: Seq<u8>,
    width: u32,
    height: u32,
    new_width: u32,
    new_height: u32,
) -> Seq<u8>;

/// What `str::to_lowercase` gives for these characters.
pub uninterp spec fn lower_of(s: Seq<char>) -> Seq<char>;

/// Relies on zune_jpeg::JpegDecoder (`new`, `decode`, `info`): decodes the
/// bytes with the default options (RGB output) and reports the image's size;
/// `None` where decoding fails. The result depends on the bytes alone.
#[verifier::external_body]
fn jpeg_decode(data: &Vec<u8>) -> (r: Option<(Vec<u8>, u16, u16)>)
    ensures
        match r {
            Some((p, w, h)) => jpeg_decoded(data@) == Some((p@, w, h)),
            None => jpeg_decoded(data@).is_none(),
        },
{
    let mut decoder = zune_jpeg::JpegDecoder::new(data.as_slice());
    let pixels = decoder.decode().ok()?;
    let info = decoder.info()?;
    Some((pixels, info.width, info.height))
}

/// Relies on image::load_from_memory, DynamicImage::to_rgba8 and
/// ImageBuffer::into_raw: decodes the bytes in the format that their content
/// shows and converts the image to RGBA8. The result depends on the bytes alone.
#[verifier::external_body]
fn generic_decode(data: &Vec<u8>) -> (r: Option<(Vec<u8>, u32, u32)>)
    ensures
        match r {
            Some((p, w, h)) => image_decoded(data@) == Some((p@, w, h)),
            None => image_decoded(data@).is_none(),
        },
{
    match image::load_from_memory(data.as_slice()) {
        Ok(img) => {
            let rgba = img.to_rgba8();
            let (w, h) = (rgba.width(), rgba.height());
            Some((rgba.into_raw(), w, h))
        },
        Err(_) => None,
    }
}

/// Relies on image::imageops::thumbnail over an `RgbaImage` built by
/// `ImageBuffer::from_raw` (which accepts a buffer of at least
/// `4 * width * height` bytes): the output is a fresh buffer of
/// `new_width * new_height` RGBA8 pixels, allocated by `ImageBuffer::new`,
/// which panics where that length overflows `usize`.
#[verifier::external_body]
fn resize_rgba(pixels: Vec<u8>, width: u32, height: u32, new_width: u32, new_height: u32) -> (r:
    Vec<u8>)
    requires
        pixels@.len() >= width * height * 4,
        new_width * new_height * 4 <= usize::MAX,
    ensures
        r@ == thumbnail_pixels(pixels@, width, height, new_width, new_height),
        r@.len() == new_width * new_height * 4,
{
    match image::RgbaImage::from_raw(width, height, pixels) {
        Some(img) => image::imageops::thumbnail(&img, new_width, new_height).into_raw(),
        None => Vec::new(),
    }
}

/// Relies on str::to_lowercase: the result depends on the characters alone.
#[verifier::external_body]
pub(crate) fn lowercase(s: &String) -> (r: String)
    ensures
        r@ == lower_of(s@),
{
    s.to_lowercase()
}

/// The size of the downscaled image: unchanged where neither side exceeds
/// `MAX_SIDE`; otherwise the longer side becomes `MAX_SIDE` and the shorter
/// one is scaled by the same ratio, rounded to nearest, and at least one.
pub open spec fn fit_size(w: int, h: int) -> (int, int) {
    if w <= MAX_SIDE && h <= MAX_SIDE {
        (w, h)
    } else if w >= h {
        let s = (h * MAX_SIDE + w / 2) / w;
        (MAX_SIDE as int, if s < 1 { 1 } else { s })
    } else {
        let s = (w * MAX_SIDE + h / 2) / h;
        (if s < 1 { 1 } else { s }, MAX_SIDE as int)
    }
}

/// The shorter side `a` scaled to the longer side `b` becoming 2000 stays
/// within 2000, and rounds `2000 * a / b` to nearest.
proof fn lemma_scaled_side(a: int, b: int)
    requires
        0 <= a <= b,
        b > 0,
    ensures
        (a * 2000 + b / 2) / b <= 2000,
        ((a * 2000 + b / 2) / b) * b <= a * 2000 + b / 2,
        ((a * 2000 + b / 2) / b) * b > a * 2000 + b / 2 - b,
        (a * 2000 + b / 2) / b == 0 ==> a * 2000 < b,
{
    let s = (a * 2000 + b / 2) / b;
    assert(s <= 2000 && s * b <= a * 2000 + b / 2 && s * b > a * 2000 + b / 2 - b && (s == 0 ==> a
        * 2000 < b)) by (nonlinear_arith)
        requires
            s == (a * 2000 + b / 2) / b,
            0 <= a <= b,
            b > 0,
    ;
}

/// The target size for an image of `width` by `height` pixels.
pub fn thumbnail_size(width: u32, height: u32) -> (r: (u32, u32))
    ensures
        (r.0 as int, r.1 as int) == fit_size(width as int, height as int),
{
    if width <= MAX_SIDE && height <= MAX_SIDE {
        return (width, height);
    }
    let w = width as u64;
    let h = height as u64;
    if w >= h {
        let s = (h * 2000 + w / 2) / w;
        proof {
            lemma_scaled_side(h as int, w as int);
        }
        (MAX_SIDE, if s < 1 { 1 } else { s as u32 })
    } else {
        let s = (w * 2000 + h / 2) / h;
        proof {
            lemma_scaled_side(w as int, h as int);
        }
        (if s < 1 { 1 } else { s as u32 }, MAX_SIDE)
    }
}

/// Downscaling keeps both sides within `MAX_SIDE`, keeps sizes that already
/// fit, and keeps the aspect ratio up to rounding: the cross products of the
/// two sizes differ by at most the longer side of the input.
pub proof fn lemma_fit_size(w: int, h: int)
    requires
        w >= 0,
        h >= 0,
    ensures
        fit_size(w, h).0 <= MAX_SIDE,
        fit_size(w, h).1 <= MAX_SIDE,
        w <= MAX_SIDE && h <= MAX_SIDE ==> fit_size(w, h) == (w, h),
        w > MAX_SIDE || h > MAX_SIDE ==> {
            let (nw, nh) = fit_size(w, h);
            let m = if w >= h { w } else { h };
            -m <= nw * h - nh * w <= m
        },
{
    if w > MAX_SIDE || h > MAX_SIDE {
        if w >= h {
            lemma_scaled_side(h, w);
        } else {
            lemma_scaled_side(w, h);
        }
    }
}

/// RGB pixels with an opaque alpha channel added, for `n` pixels.
pub open spec fn is_rgba_of(out: Seq<u8>, rgb: Seq<u8>, n: int) -> bool {
    &&& out.len() == n * 4
    &&& forall|i: int, j: int|
        0 <= i < n && 0 <= j < 4 ==> #[trigger] out[i * 4 + j] == if j == 3 {
            255u8
        } else {
            rgb[i * 3 + j]
        }
}

/// The first `n` RGB pixels of `rgb` with an opaque alpha channel added.
pub open spec fn rgba_from_rgb(rgb: Seq<u8>, n: int) -> Seq<u8> {
    Seq::new(
        (n * 4) as nat,
        |k: int|
            if k % 4 == 3 {
                255u8
            } else {
                rgb[(k / 4) * 3 + k % 4]
            },
    )
}

proof fn lemma_rgba_from_rgb(out: Seq<u8>, rgb: Seq<u8>, n: int)
    requires
        n >= 0,
        is_rgba_of(out, rgb, n),
    ensures
        out == rgba_from_rgb(rgb, n),
{
    let e = rgba_from_rgb(rgb, n);
    assert forall|k: int| 0 <= k < out.len() implies out[k] == e[k] by {
        let i = k / 4;
        let j = k % 4;
        assert(k == i * 4 + j);
        assert(out[i * 4 + j] == if j == 3 { 255u8 } else { rgb[i * 3 + j] });
    }
    assert(out =~= e);
}

/// Adds an opaque alpha channel to `width * height` RGB pixels. `None` where
/// `pixels` holds fewer than `3 * width * height` bytes or that count
/// overflows `usize`; bytes beyond it are ignored.
pub fn rgb_to_rgba(pixels: &Vec<u8>, width: usize, height: usize) -> (r: Option<Vec<u8>>)
    ensures
        r.is_some() == (width * height * 4 <= usize::MAX && pixels@.len() >= width * height * 3),
        r matches Some(out) ==> is_rgba_of(out@, pixels@, width * height) && out@ == rgba_from_rgb(
            pixels@,
            width * height,
        ),
{
    let n = match width.checked_mul(height) {
        Some(n) => n,
        None => return None,
    };
    let size = match n.checked_mul(4) {
        Some(s) => s,
        None => return None,
    };
    if pixels.len() / 3 < n {
        return None;
    }
    let mut out: Vec<u8> = Vec::with_capacity(size);
    let mut i: usize = 0;
    while i < n
        invariant
            n == width * height,
            n * 4 <= usize::MAX,
            n * 3 <= pixels@.len(),
            i <= n,
            out@.len() == i * 4,
            forall|a: int, j: int|
                0 <= a < i && 0 <= j < 4 ==> #[trigger] out@[a * 4 + j] == if j == 3 {
                    255u8
                } else {
                    pixels@[a * 3 + j]
                },
        decreases n - i,
    {
        let b = i * 3;
        out.push(pixels[b]);
        out.push(pixels[b + 1]);
        out.push(pixels[b + 2]);
        out.push(255);
        proof {
            assert forall|a: int, j: int| 0 <= a < i + 1 && 0 <= j < 4 implies #[trigger] out@[a * 4
                + j] == if j == 3 {
                255u8
            } else {
                pixels@[a * 3 + j]
            } by {
                if a == i {
                    assert(a * 4 + j == i * 4 + j);
                }
            }
        }
        i += 1;
    }
    proof {
        lemma_rgba_from_rgb(out@, pixels@, n as int);
    }
    Some(out)
}

/// The file extension names a JPEG file (compared after lowercasing).
pub open spec fn is_jpeg_name(lower: Seq<char>) -> bool {
    lower == "jpg"@ || lower == "jpeg"@
}

/// Decoded RGBA8 pixels and size before downscaling: the JPEG decoder for
/// the JPEG extensions (its RGB output extended with alpha), the generic
/// decoder for any other extension.
pub open spec fn full_decode(lower_ext: Seq<char>, data: Seq<u8>) -> Option<(Seq<u8>, u32, u32)> {
    if is_jpeg_name(lower_ext) {
        match jpeg_decoded(data) {
            Some((p, w, h)) => if p.len() >= w * h * 3 && w * h * 4 <= usize::MAX {
                Some((rgba_from_rgb(p, w * h), w as u32, h as u32))
            } else {
                None
            },
            None => None,
        }
    } else {
        match image_decoded(data) {
            Some((p, w, h)) => if p.len() == w * h * 4 && w * h * 4 <= usize::MAX {
                Some((p, w, h))
            } else {
                None
            },
            None => None,
        }
    }
}

/// What `decode_image` gives: the full decode, downscaled to `fit_size`
/// where it is larger; nothing for a file without an extension.
pub open spec fn decode_spec(ext: Option<Seq<char>>, data: Seq<u8>) -> Option<(Seq<u8>, int, int)> {
    match ext {
        None => None,
        Some(e) => match full_decode(lower_of(e), data) {
            None => None,
            Some((p, w, h)) => {
                let (nw, nh) = fit_size(w as int, h as int);
                if nw == w && nh == h {
                    Some((p, w as int, h as int))
                } else {
                    Some((thumbnail_pixels(p, w, h, nw as u32, nh as u32), nw, nh))
                }
            },
        },
    }
}

pub open spec fn opt_view(s: Option<String>) -> Option<Seq<char>> {
    match s {
        Some(e) => Some(e@),
        None => None,
    }
}

/// Decodes the bytes of an image file whose extension is `extension`: the
/// JPEG decoder for `jpg` and `jpeg` in any case, the generic decoder for the
/// rest; then downscales so that neither side exceeds `MAX_SIDE`. `None`
/// where there is no extension or decoding fails.
pub fn decode_image(extension: &Option<String>, data: &Vec<u8>) -> (r: Option<DecodedImage>)
    ensures
        match r {
            Some(d) => d.wf() && d.width <= MAX_SIDE && d.height <= MAX_SIDE && decode_spec(
                opt_view(*extension),
                data@,
            ) == Some((d.pixels@, d.width as int, d.height as int)),
            None => decode_spec(opt_view(*extension), data@).is_none(),
        },
{
    let ext = match extension {
        Some(e) => lowercase(e),
        None => return None,
    };
    let jpg = "jpg".to_owned();
    let jpeg = "jpeg".to_owned();
    proof {
        reveal_strlit("jpg");
        reveal_strlit("jpeg");
    }
    let (pixels, width, height) = if ext == jpg || ext == jpeg {
        match jpeg_decode(data) {
            Some((p, w, h)) => match rgb_to_rgba(&p, w as usize, h as usize) {
                Some(q) => (q, w as u32, h as u32),
                None => return None,
            },
            None => return None,
        }
    } else {
        match generic_decode(data) {
            Some((p, w, h)) => {
                let n = match (w as usize).checked_mul(h as usize) {
                    Some(n) => n,
                    None => return None,
                };
                let size = match n.checked_mul(4) {
                    Some(s) => s,
                    None => return None,
                };
                if p.len() != size {
                    return None;
                }
                (p, w, h)
            },
            None => return None,
        }
    };
    let (nw, nh) = thumbnail_size(width, height);
    proof {
        lemma_fit_size(width as int, height as int);
    }
    if nw == width && nh == height {
        return Some(DecodedImage { pixels, width: width as usize, height: height as usize });
    }
    assert(nw * nh * 4 <= 2000 * 2000 * 4) by (nonlinear_arith)
        requires
            nw <= 2000,
            nh <= 2000,
    ;
    let small = resize_rgba(pixels, width, height, nw, nh);
    Some(DecodedImage { pixels: small, width: nw as usize, height: nh as usize })
}

} // verus!
