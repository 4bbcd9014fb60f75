//! Preview thumbnails: decoding a PNG image and sampling it at the size of its
//! thumbnail.
use crate::preamble;
use crate::scaling;
use vstd::prelude::*;

verus! {

/// How the samples of a decoded image make up its pixels.
#[derive(Clone, Copy, Debug, PartialEq, Eq, Structural)]
pub enum ColorType {
    Grayscale,
    Rgb,
    Indexed,
    GrayscaleAlpha,
    Rgba,
}

impl ColorType {
    /// The number of samples in a pixel.
    pub open spec fn samples(self) -> int {
        match self {
            ColorType::Grayscale => 1,
            ColorType::Rgb => 3,
            ColorType::Indexed => 1,
            ColorType::GrayscaleAlpha => 2,
            ColorType::Rgba => 4,
        }
    }
}

/// A decoded image: rows of pixels from the top, a byte for each sample. What
/// follows the last pixel is of no account.
pub struct Frame {
    pub width: u32,
    pub height: u32,
    pub color_type: ColorType,
    pub data: Vec<u8>,
}

impl Frame {
    /// Whether there is a pixel, and data for every pixel.
    pub open spec fn complete(self) -> bool {
        &&& self.width >= 1
        &&& self.height >= 1
        &&& self.width * self.height * self.color_type.samples() <= self.data@.len()
    }
}

/// The first frame of the PNG image that `file` holds, with samples of eight
/// bits: its width and height, its color type and its data. `None` where
/// `file` does not hold a PNG image that can be decoded.
pub uninterp spec fn png_frame(file: Seq<u8>) -> Option<(u32, u32, ColorType, Seq<u8>)>;

/// Decodes the first frame of a PNG image with the `png` crate: `Decoder::new`,
/// `set_transformations` with `normalize_to_color8` (samples of eight bits,
/// palettes expanded), `read_info`, `output_buffer_size` and `next_frame`. An
/// error of any of them gives `None`.
///
/// What the decoder makes of a file is named, not described. Besides the name,
/// three facts of its source are relied on. No frame is empty: a width or
/// height of zero is an error both in the header and in a frame's own control
/// chunk. There is data for every pixel: the buffer is made as large as the
/// decoder says that the whole image needs, and a frame is no larger. And no
/// frame is left indexed: expanding a palette gives red, green and blue.
///
/// Four things that a file can say before its image data would make the
/// decoder, or the request for the buffer, panic. They are left out: an image
/// larger than memory can address; an indexed image whose palette ends within
/// an entry or has more than 256 of them; more frames than can be counted; and
/// an interlaced frame whose bits cannot be counted. All but the palette rest
/// on the width of the machine's addresses. That there is as much memory as
/// the buffer needs is not claimed.
#[verifier::external_body]
fn decode_png(file: &[u8]) -> (frame: Option<Frame>)
    requires
        preamble::is_decodable(file@),
    ensures
        match frame {
            None => png_frame(file@) is None,
            Some(f) => {
                &&& png_frame(file@) == Some((f.width, f.height, f.color_type, f.data@))
                &&& f.complete()
                &&& f.color_type != ColorType::Indexed
            },
        },
{
    let mut decoder = png::Decoder::new(file);
    decoder.set_transformations(png::Transformations::normalize_to_color8());
    let mut reader = decoder.read_info().ok()?;
    let mut data = vec![0u8; reader.output_buffer_size()];
    let info = reader.next_frame(&mut data).ok()?;
    let color_type = match info.color_type {
        png::ColorType::Grayscale => ColorType::Grayscale,
        png::ColorType::Rgb => ColorType::Rgb,
        png::ColorType::Indexed => ColorType::Indexed,
        png::ColorType::GrayscaleAlpha => ColorType::GrayscaleAlpha,
        png::ColorType::Rgba => ColorType::Rgba,
    };
    Some(Frame { width: info.width, height: info.height, color_type, data })
}

/// Channel `c` (red, green, blue, alpha) of pixel `j`. A gray pixel has the
/// same level in all three colors; without an alpha sample it is opaque.
pub open spec fn channel(color_type: ColorType, data: Seq<u8>, j: int, c: int) -> u8 {
    match color_type {
        ColorType::Rgba => data[4 * j + c],
        ColorType::Rgb => if c < 3 {
            data[3 * j + c]
        } else {
            255
        },
        ColorType::Grayscale => if c < 3 {
            data[j]
        } else {
            255
        },
        ColorType::GrayscaleAlpha => if c < 3 {
            data[2 * j]
        } else {
            data[2 * j + 1]
        },
        ColorType::Indexed => 0,
    }
}

/// The pixel of a `w` by `h` image that pixel `i` of its `tw` by `th`
/// thumbnail shows.
pub open spec fn source_pixel(w: int, h: int, tw: int, th: int, i: int) -> int {
    (i / tw) * h / th * w + (i % tw) * w / tw
}

/// The thumbnail at the size `tw` by `th`: four bytes for each pixel.
pub open spec fn sampled(
    w: int,
    h: int,
    color_type: ColorType,
    data: Seq<u8>,
    tw: int,
    th: int,
) -> Seq<u8> {
    Seq::new(
        (tw * th * 4) as nat,
        |i: int| channel(color_type, data, source_pixel(w, h, tw, th, i / 4), i % 4),
    )
}

/// A position scaled down stays in its range.
proof fn lemma_scaled_position(i: int, n: int, m: int)
    requires
        0 <= i < m,
        n > 0,
    ensures
        0 <= i * n / m < n,
{
    assert(0 <= i * n < n * m) by (nonlinear_arith)
        requires
            0 <= i < m,
            n > 0,
    ;
    vstd::arithmetic::div_mod::lemma_div_pos_is_pos(i * n, m);
    vstd::arithmetic::mul::lemma_mul_is_commutative(n, m);
    vstd::arithmetic::div_mod::lemma_multiply_divide_lt(i * n, m, n);
}

/// Every pixel of a thumbnail shows a pixel of its image.
pub proof fn thumbnail_shows_image_pixels(w: int, h: int, tw: int, th: int, i: int)
    requires
        w >= 1,
        h >= 1,
        tw >= 1,
        th >= 1,
        0 <= i < tw * th,
    ensures
        0 <= source_pixel(w, h, tw, th, i) < w * h,
{
    vstd::arithmetic::div_mod::lemma_fundamental_div_mod(i, tw);
    vstd::arithmetic::div_mod::lemma_div_pos_is_pos(i, tw);
    vstd::arithmetic::mul::lemma_mul_is_commutative(tw, th);
    vstd::arithmetic::div_mod::lemma_multiply_divide_lt(i, tw, th);
    lemma_scaled_position(i / tw, h, th);
    lemma_scaled_position(i % tw, w, tw);
    let sy: int = (i / tw) * h / th;
    let sx: int = (i % tw) * w / tw;
    assert(0 <= sy * w + sx < w * h) by (nonlinear_arith)
        requires
            0 <= sy <= h - 1,
            0 <= sx < w,
    ;
}

/// A thumbnail of the image's own size shows every pixel in its place.
pub proof fn full_size_thumbnail_is_the_image(w: int, h: int, i: int)
    requires
        w >= 1,
        h >= 1,
        0 <= i < w * h,
    ensures
        source_pixel(w, h, w, h, i) == i,
{
    vstd::arithmetic::div_mod::lemma_fundamental_div_mod(i, w);
    vstd::arithmetic::div_mod::lemma_div_pos_is_pos(i, w);
    vstd::arithmetic::div_mod::lemma_div_by_multiple(i / w, h);
    vstd::arithmetic::div_mod::lemma_div_by_multiple(i % w, w);
    vstd::arithmetic::mul::lemma_mul_is_commutative(i / w, w);
}

/// The channels of pixel `j`.
fn pixel(frame: &Frame, j: usize) -> (p: (u8, u8, u8, u8))
    requires
        frame.complete(),
        j < frame.width * frame.height,
    ensures
        p.0 == channel(frame.color_type, frame.data@, j as int, 0),
        p.1 == channel(frame.color_type, frame.data@, j as int, 1),
        p.2 == channel(frame.color_type, frame.data@, j as int, 2),
        p.3 == channel(frame.color_type, frame.data@, j as int, 3),
{
    let d: &Vec<u8> = &frame.data;
    proof {
        let s: int = frame.color_type.samples();
        let n: int = frame.width * frame.height;
        assert(d@.len() == d.len());
        assert(j * s + s <= n * s) by (nonlinear_arith)
            requires
                j + 1 <= n,
                s >= 1,
        ;
    }
    match frame.color_type {
        ColorType::Rgba => (d[4 * j], d[4 * j + 1], d[4 * j + 2], d[4 * j + 3]),
        ColorType::Rgb => (d[3 * j], d[3 * j + 1], d[3 * j + 2], 255),
        ColorType::Grayscale => (d[j], d[j], d[j], 255),
        ColorType::GrayscaleAlpha => (d[2 * j], d[2 * j], d[2 * j], d[2 * j + 1]),
        ColorType::Indexed => (0, 0, 0, 0),
    }
}

/// The thumbnail at the size `tw` by `th`, each pixel the nearest of the image
/// towards its top left corner.
fn sample(frame: &Frame, tw: u32, th: u32) -> (pixels: Vec<u8>)
    requires
        frame.complete(),
        1 <= tw <= scaling::THUMB_MAX_W,
        1 <= th <= scaling::THUMB_MAX_H,
    ensures
        pixels@ == sampled(
            frame.width as int,
            frame.height as int,
            frame.color_type,
            frame.data@,
            tw as int,
            th as int,
        ),
{
    let w: u64 = frame.width as u64;
    let h: u64 = frame.height as u64;
    let ghost whole: Seq<u8> = sampled(
        w as int,
        h as int,
        frame.color_type,
        frame.data@,
        tw as int,
        th as int,
    );
    let mut pixels: Vec<u8> = Vec::new();
    let mut ty: u32 = 0;
    while ty < th
        invariant
            frame.complete(),
            w == frame.width,
            h == frame.height,
            1 <= tw <= 100,
            1 <= th <= 76,
            ty <= th,
            pixels@.len() == 4 * (ty * tw),
            whole.len() == 4 * (th * tw),
            whole == sampled(
                w as int,
                h as int,
                frame.color_type,
                frame.data@,
                tw as int,
                th as int,
            ),
            forall|i: int| 0 <= i < pixels@.len() ==> pixels@[i] == whole[i],
        decreases th - ty,
    {
        proof {
            lemma_scaled_position(ty as int, h as int, th as int);
            assert(ty * h <= 76 * 0xffff_ffff) by (nonlinear_arith)
                requires
                    ty <= 76,
                    h <= 0xffff_ffff,
            ;
        }
        let sy: u64 = ty as u64 * h / th as u64;
        let mut tx: u32 = 0;
        while tx < tw
            invariant
                frame.complete(),
                w == frame.width,
                h == frame.height,
                1 <= tw <= 100,
                1 <= th <= 76,
                ty < th,
                tx <= tw,
                sy == ty * h / (th as int),
                sy < h,
                pixels@.len() == 4 * (ty * tw + tx),
                whole.len() == 4 * (th * tw),
                whole == sampled(
                    w as int,
                    h as int,
                    frame.color_type,
                    frame.data@,
                    tw as int,
                    th as int,
                ),
                forall|i: int| 0 <= i < pixels@.len() ==> pixels@[i] == whole[i],
            decreases tw - tx,
        {
            let ghost q: int = ty * tw + tx;
            proof {
                lemma_scaled_position(tx as int, w as int, tw as int);
                assert(tx * w <= 100 * 0xffff_ffff) by (nonlinear_arith)
                    requires
                        tx <= 100,
                        w <= 0xffff_ffff,
                ;
                vstd::arithmetic::div_mod::lemma_fundamental_div_mod_converse(
                    q,
                    tw as int,
                    ty as int,
                    tx as int,
                );
                assert(q < th * tw) by (nonlinear_arith)
                    requires
                        q == ty * tw + tx,
                        ty + 1 <= th,
                        tx < tw,
                ;
            }
            let sx: u64 = tx as u64 * w / tw as u64;
            proof {
                let s: int = frame.color_type.samples();
                assert(frame.data@.len() == frame.data.len());
                assert(0 <= sy * w && sy * w + sx < w * h) by (nonlinear_arith)
                    requires
                        0 <= sy <= h - 1,
                        0 <= sx < w,
                ;
                assert(w * h <= w * h * s) by (nonlinear_arith)
                    requires
                        s >= 1,
                        w >= 0,
                        h >= 0,
                ;
            }
            let j: usize = sy as usize * w as usize + sx as usize;
            let p: (u8, u8, u8, u8) = pixel(frame, j);
            let ghost before: Seq<u8> = pixels@;
            pixels.push(p.0);
            pixels.push(p.1);
            pixels.push(p.2);
            pixels.push(p.3);
            proof {
                assert(source_pixel(w as int, h as int, tw as int, th as int, q) == j);
                assert forall|i: int| 0 <= i < pixels@.len() implies pixels@[i] == whole[i] by {
                    if i < before.len() {
                        assert(pixels@[i] == before[i]);
                    } else {
                        let c: int = i - 4 * q;
                        assert(i / 4 == q && i % 4 == c);
                    }
                }
            }
            tx = tx + 1;
        }
        proof {
            assert((ty + 1) * tw == ty * tw + tw) by (nonlinear_arith);
        }
        ty = ty + 1;
    }
    pixels
}

/// The thumbnail of a decoded image, as RGBA bytes with their width and
/// height. An indexed image has none.
pub fn thumbnail(frame: &Frame) -> (t: Option<(Vec<u8>, u32, u32)>)
    requires
        frame.complete(),
    ensures
        t is None <==> frame.color_type == ColorType::Indexed,
        t matches Some((pixels, tw, th)) ==> is_thumbnail(
            frame.width as int,
            frame.height as int,
            frame.color_type,
            frame.data@,
            pixels@,
            tw as int,
            th as int,
        ),
{
    if let ColorType::Indexed = frame.color_type {
        return None;
    }
    let (tw, th): (u32, u32) = scaling::thumbnail_size(frame.width, frame.height);
    proof {
        scaling::thumbnail_fits_its_box(frame.width as int, frame.height as int);
    }
    let pixels: Vec<u8> = sample(frame, tw, th);
    Some((pixels, tw, th))
}

/// Whether `pixels` at the size `tw` by `th` is the thumbnail of an image.
pub open spec fn is_thumbnail(
    w: int,
    h: int,
    color_type: ColorType,
    data: Seq<u8>,
    pixels: Seq<u8>,
    tw: int,
    th: int,
) -> bool {
    &&& tw == scaling::scaled_side(w, scaling::scale(w, h))
    &&& th == scaling::scaled_side(h, scaling::scale(w, h))
    &&& pixels == sampled(w, h, color_type, data, tw, th)
}

/// The thumbnail of the PNG image that `file` holds, as RGBA bytes with their
/// width and height; `None` for what is not a PNG image, or not one that can
/// be decoded in memory.
pub fn load_thumbnail(file: &[u8]) -> (t: Option<(Vec<u8>, u32, u32)>)
    ensures
        !preamble::is_decodable(file@) ==> t is None,
        preamble::is_decodable(file@) ==> match png_frame(file@) {
            None => t is None,
            Some((w, h, color_type, data)) => {
                &&& w >= 1
                &&& h >= 1
                &&& color_type != ColorType::Indexed
                &&& w * h * color_type.samples() <= data.len()
                &&& t matches Some((pixels, tw, th))
                &&& is_thumbnail(w as int, h as int, color_type, data, pixels@, tw as int, th as int)
                &&& 1 <= tw <= scaling::THUMB_MAX_W
                &&& 1 <= th <= scaling::THUMB_MAX_H
            },
        },
{
    if let Some(p) = preamble::read_preamble(file) {
        if !p.can_be_decoded() {
            return None;
        }
    }
    match decode_png(file) {
        None => None,
        Some(frame) => {
            proof {
                scaling::thumbnail_fits_its_box(frame.width as int, frame.height as int);
            }
            thumbnail(&frame)
        },
    }
}

/// The samples that make up a pixel: a gray level or three colors, and with
/// alpha one more. An index is one sample.
pub proof fn samples_make_up_a_pixel(color_type: ColorType)
    ensures
        color_type == ColorType::Grayscale || color_type == ColorType::Indexed
            ==> color_type.samples() == 1,
        color_type == ColorType::GrayscaleAlpha ==> color_type.samples() == 2,
        color_type == ColorType::Rgb ==> color_type.samples() == 3,
        color_type == ColorType::Rgba ==> color_type.samples() == 4,
{
}

/// The pixel of a thumbnail in column `tx` and row `ty` has the color of the
/// pixel of the image in the column and row that are the same part of its
/// width and height, cut off to whole pixels. A gray level goes into all three
/// colors, and what has no alpha is opaque.
pub proof fn thumbnail_shows_the_image_in_place(
    w: int,
    h: int,
    color_type: ColorType,
    data: Seq<u8>,
    pixels: Seq<u8>,
    tw: int,
    th: int,
    tx: int,
    ty: int,
)
    requires
        w >= 1,
        h >= 1,
        is_thumbnail(w, h, color_type, data, pixels, tw, th),
        0 <= tx < tw,
        0 <= ty < th,
    ensures
        tw == scaling::scaled_side(w, scaling::scale(w, h)),
        th == scaling::scaled_side(h, scaling::scale(w, h)),
        pixels.len() == 4 * (tw * th),
        ({
            let sx = tx * w / tw;
            let sy = ty * h / th;
            let j = sy * w + sx;
            let o = 4 * (ty * tw + tx);
            &&& 0 <= sx < w
            &&& 0 <= sy < h
            &&& 0 <= o < pixels.len() - 3
            &&& color_type == ColorType::Rgba ==> pixels[o] == data[4 * j] && pixels[o + 1]
                == data[4 * j + 1] && pixels[o + 2] == data[4 * j + 2] && pixels[o + 3] == data[4
                * j + 3]
            &&& color_type == ColorType::Rgb ==> pixels[o] == data[3 * j] && pixels[o + 1]
                == data[3 * j + 1] && pixels[o + 2] == data[3 * j + 2] && pixels[o + 3] == 255
            &&& color_type == ColorType::Grayscale ==> pixels[o] == data[j] && pixels[o + 1]
                == data[j] && pixels[o + 2] == data[j] && pixels[o + 3] == 255
            &&& color_type == ColorType::GrayscaleAlpha ==> pixels[o] == data[2 * j] && pixels[o
                + 1] == data[2 * j] && pixels[o + 2] == data[2 * j] && pixels[o + 3] == data[2 * j
                + 1]
        }),
{
    let q: int = ty * tw + tx;
    vstd::arithmetic::div_mod::lemma_fundamental_div_mod_converse(q, tw, ty, tx);
    assert(0 <= q < tw * th) by (nonlinear_arith)
        requires
            q == ty * tw + tx,
            0 <= tx < tw,
            0 <= ty <= th - 1,
    ;
    assert(tw * th * 4 == 4 * (tw * th)) by (nonlinear_arith);
    lemma_scaled_position(tx, w, tw);
    lemma_scaled_position(ty, h, th);
    let o: int = 4 * q;
    assert(o / 4 == q && o % 4 == 0);
    assert((o + 1) / 4 == q && (o + 1) % 4 == 1);
    assert((o + 2) / 4 == q && (o + 2) % 4 == 2);
    assert((o + 3) / 4 == q && (o + 3) % 4 == 3);
}

} // verus!
