//! Flat image files (PNG, JPEG) read from their bytes and written to bytes
//! by the `image` crate, in the format that the file's extension names.
//! Reading and writing the files themselves is left to the caller.
use vstd::prelude::*;

verus! {

/// What the `image` crate decodes from `bytes`, in the format that the
/// extension of `path` names, as width, height and RGBA8 pixels; `None`
/// when the extension names no format it reads or the bytes do not decode.
pub uninterp spec fn rgba_of_image(path: Seq<char>, bytes: Seq<u8>) -> Option<(u32, u32, Seq<u8>)>;

/// The same decoding as `rgba_of_image`, as RGB8 pixels.
pub uninterp spec fn rgb_of_image(path: Seq<char>, bytes: Seq<u8>) -> Option<(u32, u32, Seq<u8>)>;

/// `image::ImageFormat::from_path`, then `image::load_from_memory_with_format`
/// and `to_rgba8`: the image in `bytes`, read in the format the extension of
/// `path` names, with its width, height and pixels. The result is named; the
/// crate's errors are passed on.
#[verifier::external_body]
pub(crate) fn decode_image_rgba(path: &str, bytes: &[u8]) -> (r: Result<(u32, u32, Vec<u8>), image::ImageError>)
    ensures
        r is Ok <==> rgba_of_image(path@, bytes@) is Some,
        r matches Ok(t) ==> rgba_of_image(path@, bytes@) == Some((t.0, t.1, t.2@)),
{
    let format = image::ImageFormat::from_path(path)?;
    let img = image::load_from_memory_with_format(bytes, format)?.to_rgba8();
    Ok((img.width(), img.height(), img.into_raw()))
}

/// `image::ImageFormat::from_path`, then `image::load_from_memory_with_format`
/// and `to_rgb8`: as `decode_image_rgba`, with three bytes a pixel.
#[verifier::external_body]
pub(crate) fn decode_image_rgb(path: &str, bytes: &[u8]) -> (r: Result<(u32, u32, Vec<u8>), image::ImageError>)
    ensures
        r is Ok <==> rgb_of_image(path@, bytes@) is Some,
        r matches Ok(t) ==> rgb_of_image(path@, bytes@) == Some((t.0, t.1, t.2@)),
{
    let format = image::ImageFormat::from_path(path)?;
    let img = image::load_from_memory_with_format(bytes, format)?.to_rgb8();
    Ok((img.width(), img.height(), img.into_raw()))
}

/// The `Display` text of an `image` error, to show the user; nothing is
/// promised of the words.
#[verifier::external_body]
pub(crate) fn image_error_text(e: image::ImageError) -> (s: String) {
    e.to_string()
}

/// An image of `w`×`h` pixels with `n` bytes a pixel fits in memory and
/// `pixels` holds exactly its bytes.
pub open spec fn whole_image(w: u32, h: u32, n: nat, pixels: Seq<u8>) -> bool {
    w * h * n <= usize::MAX && pixels.len() == w * h * n
}

/// Whether the `w`×`h` image `pixels` has exactly `n` bytes a pixel;
/// `whole_image` says when.
pub(crate) fn is_whole_image(w: u32, h: u32, n: usize, pixels: &Vec<u8>) -> (b: bool)
    requires
        1 <= n <= 4,
    ensures
        b == whole_image(w, h, n as nat, pixels@),
{
    let wu = w as u128;
    let hu = h as u128;
    let nu = n as u128;
    assert(wu * hu <= 0xffff_ffff * 0xffff_ffffu128) by (nonlinear_arith)
        requires
            wu <= 0xffff_ffff,
            hu <= 0xffff_ffff,
    ;
    let wh = wu * hu;
    assert(wh * nu <= 4 * 0xffff_ffff * 0xffff_ffffu128) by (nonlinear_arith)
        requires
            wh <= 0xffff_ffff * 0xffff_ffffu128,
            nu <= 4,
    ;
    let total = wh * nu;
    if total > usize::MAX as u128 {
        return false;
    }
    pixels.len() as u128 == total
}

/// The file the `image` crate writes for the `w`×`h` RGBA8 picture
/// `pixels`, in the format that the extension of `path` names; `None` when
/// the extension names no format it writes or the encoder fails.
pub uninterp spec fn image_of_rgba(path: Seq<char>, w: u32, h: u32, pixels: Seq<u8>) -> Option<Seq<u8>>;

/// The same as `image_of_rgba`, for an RGB8 picture.
pub uninterp spec fn image_of_rgb(path: Seq<char>, w: u32, h: u32, pixels: Seq<u8>) -> Option<Seq<u8>>;

/// The JPEG the `image` crate's encoder makes of the `w`×`h` RGB8 picture
/// `pixels` at `quality`; `None` when it fails.
pub uninterp spec fn jpeg_of_rgb(w: u32, h: u32, pixels: Seq<u8>, quality: u8) -> Option<Seq<u8>>;

/// `image::ImageFormat::from_path`, `image::RgbaImage::from_raw` and
/// `write_to`: the file bytes of the picture in the format the extension of
/// `path` names. The result is named; the crate's errors are passed on.
#[verifier::external_body]
fn encode_image_rgba(path: &str, w: u32, h: u32, pixels: &[u8]) -> (r: Result<Vec<u8>, image::ImageError>)
    requires
        pixels@.len() >= w * h * 4,
    ensures
        r is Ok <==> image_of_rgba(path@, w, h, pixels@) is Some,
        r matches Ok(v) ==> image_of_rgba(path@, w, h, pixels@) == Some(v@),
{
    let format = image::ImageFormat::from_path(path)?;
    let img = image::RgbaImage::from_raw(w, h, pixels.to_vec()).unwrap();
    let mut out: Vec<u8> = Vec::new();
    img.write_to(&mut std::io::Cursor::new(&mut out), format)?;
    Ok(out)
}

/// `image::ImageFormat::from_path`, `image::RgbImage::from_raw` and
/// `write_to`: as `encode_image_rgba`, with three bytes a pixel.
#[verifier::external_body]
pub(crate) fn encode_image_rgb(path: &str, w: u32, h: u32, pixels: &[u8]) -> (r: Result<Vec<u8>, image::ImageError>)
    requires
        pixels@.len() >= w * h * 3,
    ensures
        r is Ok <==> image_of_rgb(path@, w, h, pixels@) is Some,
        r matches Ok(v) ==> image_of_rgb(path@, w, h, pixels@) == Some(v@),
{
    let format = image::ImageFormat::from_path(path)?;
    let img = image::RgbImage::from_raw(w, h, pixels.to_vec()).unwrap();
    let mut out: Vec<u8> = Vec::new();
    img.write_to(&mut std::io::Cursor::new(&mut out), format)?;
    Ok(out)
}

/// `image::RgbImage::from_raw`, then `JpegEncoder::new_with_quality` and
/// `encode_image`: the JPEG of the picture. The result is named.
#[verifier::external_body]
fn encode_jpeg_rgb(w: u32, h: u32, pixels: &[u8], quality: u8) -> (r: Result<Vec<u8>, image::ImageError>)
    requires
        pixels@.len() >= w * h * 3,
    ensures
        r is Ok <==> jpeg_of_rgb(w, h, pixels@, quality) is Some,
        r matches Ok(v) ==> jpeg_of_rgb(w, h, pixels@, quality) == Some(v@),
{
    let img = image::RgbImage::from_raw(w, h, pixels.to_vec()).unwrap();
    let mut out: Vec<u8> = Vec::new();
    let mut enc = image::codecs::jpeg::JpegEncoder::new_with_quality(&mut out, quality);
    enc.encode_image(&img)?;
    Ok(out)
}

/// A `w`×`h` picture with `n` bytes a pixel whose sides fit a `u32` and
/// whose bytes are exactly `pixels`.
pub open spec fn sized_picture(w: usize, h: usize, n: nat, pixels: Seq<u8>) -> bool {
    w <= u32::MAX && h <= u32::MAX && pixels.len() == w * h * n
}

fn check_picture(w: usize, h: usize, n: usize, pixels: &[u8]) -> (b: bool)
    requires
        1 <= n <= 4,
    ensures
        b == sized_picture(w, h, n as nat, pixels@),
{
    if w > u32::MAX as usize || h > u32::MAX as usize {
        return false;
    }
    let wu = w as u128;
    let hu = h as u128;
    let nu = n as u128;
    assert(wu * hu <= 0xffff_ffff * 0xffff_ffffu128) by (nonlinear_arith)
        requires
            wu <= 0xffff_ffff,
            hu <= 0xffff_ffff,
    ;
    let wh = wu * hu;
    assert(wh * nu <= 4 * 0xffff_ffff * 0xffff_ffffu128) by (nonlinear_arith)
        requires
            wh <= 0xffff_ffff * 0xffff_ffffu128,
            nu <= 4,
    ;
    pixels.len() as u128 == wh * nu
}

/// The file bytes of the `w`×`h` RGBA8 picture `rgba` in the format that
/// the extension of `path` names (`image_of_rgba`): a PNG for `.png`, and so
/// on. A picture whose bytes are not exactly `w * h * 4`, or whose sides do
/// not fit a `u32`, is refused with "неверный размер"; the encoder's own
/// failures are passed on in words.
pub fn image_bytes(path: &str, w: usize, h: usize, rgba: &[u8]) -> (r: Result<Vec<u8>, String>)
    ensures
        r is Ok <==> (sized_picture(w, h, 4, rgba@) && image_of_rgba(path@, w as u32, h as u32, rgba@) is Some),
        r matches Ok(v) ==> image_of_rgba(path@, w as u32, h as u32, rgba@) == Some(v@),
        !sized_picture(w, h, 4, rgba@) ==> (r matches Err(m) && m@ == "неверный размер"@),
{
    if !check_picture(w, h, 4, rgba) {
        return Err("неверный размер".to_owned());
    }
    match encode_image_rgba(path, w as u32, h as u32, rgba) {
        Ok(v) => Ok(v),
        Err(e) => Err(image_error_text(e)),
    }
}

/// The JPEG of the `w`×`h` RGB8 picture `rgb` at `quality` held to
/// `1..=100` (`jpeg_of_rgb`). A picture whose bytes are not exactly
/// `w * h * 3`, or whose sides do not fit a `u32`, is refused with
/// "неверный размер"; the encoder's own failures are passed on in words.
pub fn jpeg_bytes(w: usize, h: usize, rgb: &[u8], quality: u8) -> (r: Result<Vec<u8>, String>)
    ensures
        r is Ok <==> (sized_picture(w, h, 3, rgb@) && jpeg_of_rgb(w as u32, h as u32, rgb@, clamp_quality(quality))
            is Some),
        r matches Ok(v) ==> jpeg_of_rgb(w as u32, h as u32, rgb@, clamp_quality(quality)) == Some(v@),
        !sized_picture(w, h, 3, rgb@) ==> (r matches Err(m) && m@ == "неверный размер"@),
{
    if !check_picture(w, h, 3, rgb) {
        return Err("неверный размер".to_owned());
    }
    let q = if quality < 1 {
        1
    } else if quality > 100 {
        100
    } else {
        quality
    };
    match encode_jpeg_rgb(w as u32, h as u32, rgb, q) {
        Ok(v) => Ok(v),
        Err(e) => Err(image_error_text(e)),
    }
}

/// A JPEG quality held to `1..=100`.
pub open spec fn clamp_quality(q: u8) -> u8 {
    if q < 1 {
        1
    } else if q > 100 {
        100
    } else {
        q
    }
}

/// RGB8 bytes made RGBA8 with every pixel fully opaque.
pub open spec fn opaque_rgba(rgb: Seq<u8>) -> Seq<u8> {
    Seq::new(rgb.len() / 3 * 4, |j: int| if j % 4 == 3 { 255u8 } else { rgb[j / 4 * 3 + j % 4] })
}

/// The pixels of `rgb` (three bytes each) with an alpha of 255 added to
/// each; bytes past the last whole pixel are left out.
pub fn add_opaque_alpha(rgb: &[u8]) -> (out: Vec<u8>)
    requires
        rgb@.len() / 3 * 4 <= usize::MAX,
    ensures
        out@ == opaque_rgba(rgb@),
{
    let n = rgb.len() / 3;
    let mut out: Vec<u8> = Vec::new();
    let mut i: usize = 0;
    while i < n
        invariant
            n == rgb@.len() / 3,
            n * 4 <= usize::MAX,
            i <= n,
            out@ =~= opaque_rgba(rgb@).subrange(0, i * 4),
        decreases n - i,
    {
        out.push(rgb[i * 3]);
        out.push(rgb[i * 3 + 1]);
        out.push(rgb[i * 3 + 2]);
        out.push(255);
        assert(out@ =~= opaque_rgba(rgb@).subrange(0, (i + 1) * 4));
        i = i + 1;
    }
    assert(opaque_rgba(rgb@).subrange(0, n * 4) =~= opaque_rgba(rgb@));
    out
}

} // verus!
