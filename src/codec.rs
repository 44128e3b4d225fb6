//! Textures to and from encoded image bytes, through the `image` crate.
use crate::dicer::pixel_bytes;
use crate::files::{format_extension, AtlasFormat};
use crate::models::{Error, Pixel, Texture, UNKNOWN_FORMAT};
use image::codecs::png::{CompressionType, FilterType, PngEncoder};
use image::{ImageError, ImageFormat, RgbaImage};
use std::io::Cursor;
use vstd::prelude::*;

verus! {

#[verifier::external_type_specification]
#[verifier::external_body]
pub struct ExImageError(ImageError);

/// The file extensions that the `image` crate resolves to a format, in lower case.
pub open spec fn format_extensions() -> Seq<Seq<char>> {
    seq![
        "avif"@, "jpg"@, "jpeg"@, "jfif"@, "png"@, "apng"@, "gif"@, "webp"@, "tif"@, "tiff"@,
        "tga"@, "dds"@, "bmp"@, "ico"@, "hdr"@, "exr"@, "pbm"@, "pam"@, "ppm"@, "pgm"@, "pnm"@,
        "ff"@, "qoi"@,
    ]
}

/// Whether `ext` spells the lower-case ASCII word `name` in any letter case.
pub open spec fn spells(ext: Seq<char>, name: Seq<char>) -> bool {
    &&& ext.len() == name.len()
    &&& forall|i: int|
        0 <= i < ext.len() ==> #[trigger] ext[i] == name[i] || ('a' <= name[i] <= 'z' && ext[i] as u32
            + 32 == name[i] as u32)
}

/// Whether the `image` crate resolves a format from the file extension `ext`: it lower-cases
/// the ASCII letters and looks the result up in a fixed list.
pub open spec fn known_extension(ext: Seq<char>) -> bool {
    exists|k: int| 0 <= k < format_extensions().len() && spells(ext, #[trigger] format_extensions()[k])
}

/// What the `image` crate decodes from `bytes` in the format that the extension `ext` names:
/// width, height and RGBA8 samples, or nothing when the bytes do not decode.
pub uninterp spec fn decoded_rgba(bytes: Seq<u8>, ext: Seq<char>) -> Option<(u32, u32, Seq<u8>)>;

/// What the `image` crate encodes from a `width`×`height` image of RGBA8 `samples`, in the
/// atlas format with extension `ext`, or nothing when the encoder refuses the image.
pub uninterp spec fn encoded_rgba(samples: Seq<u8>, width: u32, height: u32, ext: Seq<char>) -> Option<
    Seq<u8>,
>;

/// Relies on `ImageFormat::from_extension` to resolve the format, on
/// `image::load_from_memory_with_format` to decode, and on `DynamicImage::into_rgba8` for
/// RGBA8 samples, of which an `ImageBuffer` holds at least four per pixel. None when the
/// extension names no format.
#[verifier::external_body]
fn decode_rgba8(bytes: &[u8], ext: &str) -> (r: Option<Result<(u32, u32, Vec<u8>), ImageError>>)
    ensures
        r is None <==> !known_extension(ext@),
        r matches Some(res) ==> (res is Ok <==> decoded_rgba(bytes@, ext@) is Some),
        r matches Some(Ok((w, h, b))) ==> decoded_rgba(bytes@, ext@) == Some((w, h, b@)) && b@.len()
            >= 4 * w * h,
{
    match ImageFormat::from_extension(ext) {
        Some(format) => match image::load_from_memory_with_format(bytes, format) {
            Ok(img) => {
                let rgba = img.into_rgba8();
                Some(Ok((rgba.width(), rgba.height(), rgba.into_raw())))
            },
            Err(e) => Some(Err(e)),
        },
        None => None,
    }
}

/// Relies on `ImageBuffer::from_raw`, which accepts a buffer of at least four samples per
/// pixel, and on `ImageBuffer::write_to`, or `write_with_encoder` with the best PNG
/// compression and adaptive filtering for PNG: encodes the RGBA8 image into `format`.
#[verifier::external_body]
fn encode_rgba8(width: u32, height: u32, samples: Vec<u8>, format: AtlasFormat) -> (r: Result<Vec<u8>, ImageError>)
    requires
        4 * width * height <= samples@.len(),
    ensures
        r is Ok <==> encoded_rgba(samples@, width, height, format_extension(format)) is Some,
        r matches Ok(b) ==> encoded_rgba(samples@, width, height, format_extension(format)) == Some(b@),
{
    let img = RgbaImage::from_raw(width, height, samples).expect("the buffer holds the image");
    let mut out = Cursor::new(Vec::new());
    let written = match format {
        AtlasFormat::Png => img.write_with_encoder(
            PngEncoder::new_with_quality(&mut out, CompressionType::Best, FilterType::Adaptive),
        ),
        AtlasFormat::Jpeg => img.write_to(&mut out, ImageFormat::Jpeg),
        AtlasFormat::Webp => img.write_to(&mut out, ImageFormat::WebP),
        AtlasFormat::Tga => img.write_to(&mut out, ImageFormat::Tga),
        AtlasFormat::Tiff => img.write_to(&mut out, ImageFormat::Tiff),
    };
    match written {
        Ok(()) => Ok(out.into_inner()),
        Err(e) => Err(e),
    }
}

/// Relies on `ImageError`'s `Display`: the error's message.
#[verifier::external_body]
pub(crate) fn image_error_message(e: &ImageError) -> String {
    e.to_string()
}

/// The first `n` pixels that the RGBA8 samples `b` hold, four samples each.
pub open spec fn rgba_pixels(b: Seq<u8>, n: nat) -> Seq<Pixel> {
    Seq::new(n, |i: int| Pixel { r: b[4 * i], g: b[4 * i + 1], b: b[4 * i + 2], a: b[4 * i + 3] })
}

/// A `width`×`height` texture from RGBA8 samples, row after row.
pub fn texture_from_rgba(width: u32, height: u32, samples: &Vec<u8>) -> (t: Texture)
    requires
        4 * width * height <= samples@.len(),
    ensures
        t.width == width,
        t.height == height,
        t.wf(),
        t.pixels@ == rgba_pixels(samples@, (width * height) as nat),
{
    let ghost n = width * height;
    let len = samples.len();
    assert(4 * n <= len && n <= usize::MAX) by (nonlinear_arith)
        requires
            4 * width * height <= len,
            n == width * height,
            len <= usize::MAX,
    ;
    let total = width as usize * height as usize;
    let mut pixels: Vec<Pixel> = Vec::new();
    let mut i: usize = 0;
    while i < total
        invariant
            total == n,
            len == samples@.len(),
            4 * n <= len,
            i <= total,
            pixels@ == rgba_pixels(samples@, i as nat),
        decreases total - i,
    {
        let p = Pixel { r: samples[4 * i], g: samples[4 * i + 1], b: samples[4 * i + 2], a: samples[4 * i + 3] };
        pixels.push(p);
        assert(pixels@ =~= rgba_pixels(samples@, (i + 1) as nat));
        i += 1;
    }
    Texture { width, height, pixels }
}

/// The RGBA8 samples of a texture's pixels, in order.
pub fn texture_to_rgba(tex: &Texture) -> (b: Vec<u8>)
    ensures
        b@ == pixel_bytes(tex.pixels@),
        b@.len() == 4 * tex.pixels@.len(),
{
    let pixels = &tex.pixels;
    let mut bytes: Vec<u8> = Vec::new();
    let mut i: usize = 0;
    while i < pixels.len()
        invariant
            i <= pixels@.len(),
            bytes@ == pixel_bytes(pixels@.take(i as int)),
            bytes@.len() == 4 * i,
        decreases pixels@.len() - i,
    {
        let p = pixels[i];
        assert(pixels@.take(i + 1).drop_last() =~= pixels@.take(i as int));
        bytes.push(p.r);
        bytes.push(p.g);
        bytes.push(p.b);
        bytes.push(p.a);
        assert(bytes@ =~= pixel_bytes(pixels@.take(i + 1)));
        i += 1;
    }
    assert(pixels@.take(pixels@.len() as int) =~= pixels@);
    bytes
}

/// Decodes a texture from encoded bytes whose format the file extension `ext` names.
pub fn decode_texture(bytes: &[u8], ext: &str) -> (r: Result<Texture, Error>)
    ensures
        !known_extension(ext@) ==> r == Err::<Texture, Error>(Error::Spec(UNKNOWN_FORMAT)),
        known_extension(ext@) ==> (r is Ok <==> decoded_rgba(bytes@, ext@) is Some),
        known_extension(ext@) && r is Err ==> r->Err_0 is Image,
        r matches Ok(t) ==> decoded_rgba(bytes@, ext@) matches Some((w, h, b)) && t.width == w
            && t.height == h && t.pixels@ == rgba_pixels(b, (w * h) as nat) && t.wf(),
{
    match decode_rgba8(bytes, ext) {
        None => Err(Error::Spec(UNKNOWN_FORMAT)),
        Some(Ok((w, h, samples))) => Ok(texture_from_rgba(w, h, &samples)),
        Some(Err(e)) => Err(Error::Image(e)),
    }
}

/// Encodes a texture into the atlas format.
pub fn encode_texture(tex: &Texture, format: AtlasFormat) -> (r: Result<Vec<u8>, Error>)
    requires
        tex.wf(),
    ensures
        r is Ok <==> encoded_rgba(pixel_bytes(tex.pixels@), tex.width, tex.height, format_extension(format))
            is Some,
        r matches Ok(b) ==> encoded_rgba(
            pixel_bytes(tex.pixels@),
            tex.width,
            tex.height,
            format_extension(format),
        ) == Some(b@),
        r is Err ==> r->Err_0 is Image,
{
    let samples = texture_to_rgba(tex);
    assert(4 * tex.width * tex.height == 4 * (tex.width * tex.height)) by (nonlinear_arith);
    match encode_rgba8(tex.width, tex.height, samples, format) {
        Ok(bytes) => Ok(bytes),
        Err(e) => Err(Error::Image(e)),
    }
}

/// Turning a texture into RGBA8 samples and back gives the same pixels.
pub proof fn law_rgba_round_trip(tex: Texture)
    requires
        tex.wf(),
    ensures
        rgba_pixels(pixel_bytes(tex.pixels@), (tex.width * tex.height) as nat) == tex.pixels@,
{
    let px = tex.pixels@;
    lemma_pixel_bytes(px);
    assert(rgba_pixels(pixel_bytes(px), px.len()) =~= px);
}

/// Pixel `i` of `px` lies at samples `4i..4i+4` of `pixel_bytes(px)`.
proof fn lemma_pixel_bytes(px: Seq<Pixel>)
    ensures
        pixel_bytes(px).len() == 4 * px.len(),
        forall|i: int|
            0 <= i < px.len() ==> {
                let b = pixel_bytes(px);
                &&& b[4 * i] == (#[trigger] px[i]).r
                &&& b[4 * i + 1] == px[i].g
                &&& b[4 * i + 2] == px[i].b
                &&& b[4 * i + 3] == px[i].a
            },
    decreases px.len(),
{
    if px.len() > 0 {
        let front = px.drop_last();
        lemma_pixel_bytes(front);
        assert forall|i: int| 0 <= i < px.len() implies {
            let b = pixel_bytes(px);
            &&& b[4 * i] == (#[trigger] px[i]).r
            &&& b[4 * i + 1] == px[i].g
            &&& b[4 * i + 2] == px[i].b
            &&& b[4 * i + 3] == px[i].a
        } by {
            if i < front.len() {
                assert(px[i] == front[i]);
            }
        }
    }
}

} // verus!
