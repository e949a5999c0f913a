//! The `.tpaint` project format: every layer with its settings, losslessly.
//!
//! What a plain PNG cannot keep is kept here: the layers, their order,
//! visibility, opacity, blending, masks and folders. Everything is
//! little-endian:
//!
//! ```text
//! "TPAINT01"              8 bytes: signature and version
//! u32 version             format version (3)
//! u32 width, u32 height   canvas size
//! u32 layers              number of layers
//! u32 active              index of the active layer
//! per layer:
//!   u32 name_len, name bytes (UTF-8)
//!   u8 visible, u8 locked
//!   f32 opacity
//!   u32 blend             index in BlendMode::ALL
//!   u32 png_len, bytes    the layer's pixels as a PNG
//!   since version 2:
//!     u8 has_mask
//!     if set: u8 mask_on, u32 png_len, bytes: the mask as a grey PNG
//!   since version 3:
//!     u32 group_len, bytes   the layer's folder (0: no folder)
//!     u8 group_open          the folder is open in the panel
//! ```
use crate::doc::{BlendMode, Layer, LayerMeta, LayerView, MetaView};
use crate::document::{decimal_text, push_decimal, DocView, Document};
use crate::psd_read::string_from_chars;
use vstd::prelude::*;
use vstd::utf8::{decode_utf8, encode_utf8, valid_utf8};

verus! {

/// Extension of project files, without the dot.
pub const EXT: &'static str = "tpaint";

/// Extension of project files, with the dot.
pub const EXT_DOT: &'static str = ".tpaint";

/// Signature of a project file: the name and the format generation,
/// "TPAINT01".
pub const MAGIC: [u8; 8] = [0x54, 0x50, 0x41, 0x49, 0x4E, 0x54, 0x30, 0x31];

/// The format version written.
pub const VERSION: u32 = 3;

/// The largest side of a canvas read from a project.
pub const MAX_CANVAS: u32 = 32768;

/// The most layers a project may hold.
pub const MAX_LAYERS: u32 = 512;

/// The longest layer name, in bytes.
pub const MAX_NAME: u32 = 4096;

/// The longest folder name, in bytes.
pub const MAX_GROUP: u32 = 256;

/// Why a project could not be read or written. Layers are counted from 0,
/// bottom up.
#[derive(Clone, Copy, PartialEq, Eq, Debug, Structural)]
pub enum ProjectError {
    /// The signature is not that of a project file.
    NotProject,
    /// Written by a newer version of the format.
    Newer(u32),
    /// The file ends too early.
    Truncated,
    /// The canvas size is zero or too large.
    CanvasSize(u32, u32),
    /// The number of layers is zero or too large.
    LayerCount(u32),
    /// A layer name is too long.
    LayerName,
    /// A layer name is not UTF-8.
    NameNotUtf8,
    /// The PNG of layer `i` does not decode.
    BrokenLayer(usize),
    /// The image of layer `i` is not the canvas size.
    LayerSize(usize),
    /// The PNG of the mask of layer `i` does not decode.
    BrokenMask(usize),
    /// The mask of layer `i` is not the canvas size.
    MaskSize(usize),
    /// A folder name is too long.
    GroupName,
    /// A folder name is not UTF-8.
    GroupNotUtf8,
    /// Layer `i` has fewer pixels than the canvas.
    LayerPixels(usize),
    /// The mask of layer `i` has fewer bytes than the canvas.
    MaskPixels(usize),
    /// The PNG encoder failed on layer `i` or its mask.
    Png(usize),
}

/// `prefix`, the decimal digits of `n`, then `suffix`.
pub open spec fn with_number(prefix: Seq<char>, n: nat, suffix: Seq<char>) -> Seq<char> {
    prefix + decimal_text(n) + suffix
}

/// The words a user is shown for a project error.
pub open spec fn error_text(e: ProjectError) -> Seq<char> {
    match e {
        ProjectError::NotProject => "это не файл проекта Tpaint"@,
        ProjectError::Newer(v) => with_number("файл сохранён более новой версией Tpaint ("@, v as nat, ""@)
            + with_number(" > "@, VERSION as nat, ")"@),
        ProjectError::Truncated => "файл проекта обрезан"@,
        ProjectError::CanvasSize(w, h) => with_number("неверный размер холста "@, w as nat, ""@)
            + with_number("×"@, h as nat, ""@),
        ProjectError::LayerCount(n) => with_number("неверное число слоёв: "@, n as nat, ""@),
        ProjectError::LayerName => "повреждено имя слоя"@,
        ProjectError::NameNotUtf8 => "имя слоя не в UTF-8"@,
        ProjectError::BrokenLayer(i) => with_number("повреждён слой "@, i as nat, ""@),
        ProjectError::LayerSize(i) => with_number("размер слоя "@, i as nat, " не совпадает с холстом"@),
        ProjectError::BrokenMask(i) => with_number("повреждена маска слоя "@, i as nat, ""@),
        ProjectError::MaskSize(i) => with_number(
            "размер маски слоя "@,
            i as nat,
            " не совпадает с холстом"@,
        ),
        ProjectError::GroupName => "повреждено имя папки"@,
        ProjectError::GroupNotUtf8 => "имя папки не в UTF-8"@,
        ProjectError::LayerPixels(i) => with_number("неверный размер пикселей слоя "@, i as nat, ""@),
        ProjectError::MaskPixels(i) => with_number("неверный размер маски слоя "@, i as nat, ""@),
        ProjectError::Png(i) => with_number("не удалось сжать слой "@, i as nat, ""@),
    }
}

/// `prefix`, the digits of `n` and `suffix`, as one string.
fn numbered(prefix: &str, n: usize, suffix: &str) -> (s: String)
    ensures
        s@ == with_number(prefix@, n as nat, suffix@),
{
    let mut digits: Vec<char> = Vec::new();
    push_decimal(&mut digits, n);
    let mut s = String::from_str(prefix);
    let d = string_from_chars(digits.as_slice());
    s.append(d.as_str());
    s.append(suffix);
    proof {
        assert(digits@ =~= decimal_text(n as nat));
    }
    s
}

impl ProjectError {
    /// The words a user is shown for this error: what went wrong, with the
    /// number of the layer, the size or the version it concerns.
    pub fn message(&self) -> (m: String)
        ensures
            m@ == error_text(*self),
    {
        match *self {
            ProjectError::NotProject => String::from_str("это не файл проекта Tpaint"),
            ProjectError::Newer(v) => {
                let a = numbered("файл сохранён более новой версией Tpaint (", v as usize, "");
                let b = numbered(" > ", VERSION as usize, ")");
                a.concat(b.as_str())
            },
            ProjectError::Truncated => String::from_str("файл проекта обрезан"),
            ProjectError::CanvasSize(w, h) => {
                let a = numbered("неверный размер холста ", w as usize, "");
                let b = numbered("×", h as usize, "");
                a.concat(b.as_str())
            },
            ProjectError::LayerCount(n) => numbered("неверное число слоёв: ", n as usize, ""),
            ProjectError::LayerName => String::from_str("повреждено имя слоя"),
            ProjectError::NameNotUtf8 => String::from_str("имя слоя не в UTF-8"),
            ProjectError::BrokenLayer(i) => numbered("повреждён слой ", i, ""),
            ProjectError::LayerSize(i) => numbered("размер слоя ", i, " не совпадает с холстом"),
            ProjectError::BrokenMask(i) => numbered("повреждена маска слоя ", i, ""),
            ProjectError::MaskSize(i) => numbered("размер маски слоя ", i, " не совпадает с холстом"),
            ProjectError::GroupName => String::from_str("повреждено имя папки"),
            ProjectError::GroupNotUtf8 => String::from_str("имя папки не в UTF-8"),
            ProjectError::LayerPixels(i) => numbered("неверный размер пикселей слоя ", i, ""),
            ProjectError::MaskPixels(i) => numbered("неверный размер маски слоя ", i, ""),
            ProjectError::Png(i) => numbered("не удалось сжать слой ", i, ""),
        }
    }
}

#[verifier::external_type_specification]
#[verifier::external_body]
pub struct ExImageError(image::ImageError);

/// What the PNG encoder of the `image` crate makes of `w`×`h` RGBA8 pixels;
/// `None` when it fails.
pub uninterp spec fn png_of_rgba(w: u32, h: u32, pixels: Seq<u8>) -> Option<Seq<u8>>;

/// What the PNG encoder of the `image` crate makes of `w`×`h` grey pixels;
/// `None` when it fails.
pub uninterp spec fn png_of_gray(w: u32, h: u32, pixels: Seq<u8>) -> Option<Seq<u8>>;

/// What the PNG decoder of the `image` crate reads from `bytes`, as width,
/// height and RGBA8 pixels; `None` when it fails.
pub uninterp spec fn rgba_of_png(bytes: Seq<u8>) -> Option<(u32, u32, Seq<u8>)>;

/// What the PNG decoder of the `image` crate reads from `bytes`, as width,
/// height and grey pixels; `None` when it fails.
pub uninterp spec fn gray_of_png(bytes: Seq<u8>) -> Option<(u32, u32, Seq<u8>)>;

/// `image::RgbaImage::from_raw` and `write_to` with `ImageFormat::Png`: the
/// PNG of the first `w * h * 4` bytes of `pixels`. The result is named; the
/// encoder's own errors are passed on.
#[verifier::external_body]
fn encode_png_rgba(w: u32, h: u32, pixels: &[u8]) -> (r: Result<Vec<u8>, image::ImageError>)
    requires
        pixels@.len() >= w * h * 4,
    ensures
        r is Ok <==> png_of_rgba(w, h, pixels@) is Some,
        r matches Ok(v) ==> png_of_rgba(w, h, pixels@) == Some(v@),
{
    let img = image::RgbaImage::from_raw(w, h, pixels.to_vec()).unwrap();
    let mut png: Vec<u8> = Vec::new();
    match img.write_to(&mut std::io::Cursor::new(&mut png), image::ImageFormat::Png) {
        Ok(()) => Ok(png),
        Err(e) => Err(e),
    }
}

/// `image::GrayImage::from_raw` and `write_to` with `ImageFormat::Png`: the
/// PNG of the first `w * h` bytes of `pixels`.
#[verifier::external_body]
fn encode_png_gray(w: u32, h: u32, pixels: &[u8]) -> (r: Result<Vec<u8>, image::ImageError>)
    requires
        pixels@.len() >= w * h,
    ensures
        r is Ok <==> png_of_gray(w, h, pixels@) is Some,
        r matches Ok(v) ==> png_of_gray(w, h, pixels@) == Some(v@),
{
    let img = image::GrayImage::from_raw(w, h, pixels.to_vec()).unwrap();
    let mut png: Vec<u8> = Vec::new();
    match img.write_to(&mut std::io::Cursor::new(&mut png), image::ImageFormat::Png) {
        Ok(()) => Ok(png),
        Err(e) => Err(e),
    }
}

/// `image::load_from_memory_with_format` with `ImageFormat::Png`, then
/// `to_rgba8`: width, height and pixels. The result is named.
#[verifier::external_body]
fn decode_png_rgba(bytes: &[u8]) -> (r: Result<(u32, u32, Vec<u8>), image::ImageError>)
    ensures
        r is Ok <==> rgba_of_png(bytes@) is Some,
        r matches Ok(t) ==> rgba_of_png(bytes@) == Some((t.0, t.1, t.2@)),
{
    match image::load_from_memory_with_format(bytes, image::ImageFormat::Png) {
        Ok(img) => {
            let img = img.to_rgba8();
            Ok((img.width(), img.height(), img.into_raw()))
        },
        Err(e) => Err(e),
    }
}

/// `image::load_from_memory_with_format` with `ImageFormat::Png`, then
/// `to_luma8`: width, height and grey pixels. The result is named.
#[verifier::external_body]
fn decode_png_gray(bytes: &[u8]) -> (r: Result<(u32, u32, Vec<u8>), image::ImageError>)
    ensures
        r is Ok <==> gray_of_png(bytes@) is Some,
        r matches Ok(t) ==> gray_of_png(bytes@) == Some((t.0, t.1, t.2@)),
{
    match image::load_from_memory_with_format(bytes, image::ImageFormat::Png) {
        Ok(img) => {
            let img = img.to_luma8();
            Ok((img.width(), img.height(), img.into_raw()))
        },
        Err(e) => Err(e),
    }
}

/// `String::from_utf8`: the text the bytes spell when they are UTF-8.
#[verifier::external_body]
fn string_from_utf8(bytes: Vec<u8>) -> (r: Option<String>)
    ensures
        r is Some <==> valid_utf8(bytes@),
        r matches Some(s) ==> s@ == decode_utf8(bytes@),
{
    String::from_utf8(bytes).ok()
}

/// The four little-endian bytes of `v`.
pub open spec fn le32(v: u32) -> Seq<u8> {
    seq![(v % 256) as u8, (v / 256 % 256) as u8, (v / 65536 % 256) as u8, (v / 16777216) as u8]
}

/// The little-endian `u32` at `p`.
pub open spec fn u32_at(b: Seq<u8>, p: int) -> u32 {
    (b[p] + b[p + 1] * 256 + b[p + 2] * 65536 + b[p + 3] * 16777216) as u32
}

/// The index of a blend mode in `BlendMode::ALL`; a mode that is not
/// there (one read from a PSD file) is written as `Normal`, index 0.
pub open spec fn blend_index(m: BlendMode) -> u32 {
    match m {
        BlendMode::Normal => 0,
        BlendMode::Multiply => 1,
        BlendMode::Screen => 2,
        BlendMode::Overlay => 3,
        BlendMode::Add => 4,
        _ => 0,
    }
}

/// The blend mode at index `i` of `BlendMode::ALL`; `Normal` past its end.
pub open spec fn blend_at(i: u32) -> BlendMode {
    if i == 1 {
        BlendMode::Multiply
    } else if i == 2 {
        BlendMode::Screen
    } else if i == 3 {
        BlendMode::Overlay
    } else if i == 4 {
        BlendMode::Add
    } else {
        BlendMode::Normal
    }
}

/// The opacity bits held within `0.0..=1.0` as `f32::clamp` does: below
/// zero gives `0.0`, above one gives `1.0`, and `-0.0` and NaN stay.
pub open spec fn clamp_unit(b: u32) -> u32 {
    if 0x8000_0000 < b && b <= 0xFF80_0000 {
        0
    } else if 0x3F80_0000 < b && b <= 0x7F80_0000 {
        0x3F80_0000
    } else {
        b
    }
}

/// A flag byte.
pub open spec fn flag(b: bool) -> u8 {
    if b {
        1
    } else {
        0
    }
}

/// The header: signature, version, size, layer count and active layer.
pub open spec fn header_bytes(w: u32, h: u32, n: u32, active: u32) -> Seq<u8> {
    MAGIC@ + le32(VERSION) + le32(w) + le32(h) + le32(n) + le32(active)
}

/// A length-prefixed byte string.
pub open spec fn counted(b: Seq<u8>) -> Seq<u8> {
    le32(b.len() as u32) + b
}

/// The start of a layer record: name, flags, opacity, blending and the
/// PNG of the pixels.
pub open spec fn record_front(m: MetaView, png: Seq<u8>) -> Seq<u8> {
    counted(encode_utf8(m.name)) + seq![flag(m.visible), flag(m.locked)] + le32(m.opacity) + le32(blend_index(m.blend))
        + counted(png)
}

/// The mask part of a layer record: a 0 without a mask, else 1, the on
/// flag and the PNG of the mask.
pub open spec fn mask_part(on: bool, mpng: Option<Seq<u8>>) -> Seq<u8> {
    match mpng {
        None => seq![0u8],
        Some(p) => seq![1u8, flag(on)] + counted(p),
    }
}

/// The end of a layer record: the folder name (empty for none) and the open
/// flag.
pub open spec fn record_tail(m: MetaView) -> Seq<u8> {
    let g = match m.group {
        Some(g) => counted(encode_utf8(g)),
        None => le32(0),
    };
    g + seq![flag(m.group_open)]
}

/// The record of layer `i` of a `w`×`h` canvas, or why it cannot be
/// written.
pub open spec fn layer_record(l: LayerView, w: u32, h: u32, i: nat) -> Result<Seq<u8>, ProjectError> {
    if l.pixels.len() < w * h * 4 {
        Err(ProjectError::LayerPixels(i as usize))
    } else {
        match png_of_rgba(w, h, l.pixels) {
            None => Err(ProjectError::Png(i as usize)),
            Some(png) => match l.mask {
                None => Ok(record_front(l.meta, png) + mask_part(l.mask_on, None) + record_tail(l.meta)),
                Some(m) => if m.len() < w * h {
                    Err(ProjectError::MaskPixels(i as usize))
                } else {
                    match png_of_gray(w, h, m) {
                        None => Err(ProjectError::Png(i as usize)),
                        Some(mpng) => Ok(record_front(l.meta, png) + mask_part(l.mask_on, Some(mpng)) + record_tail(l.meta)),
                    }
                },
            },
        }
    }
}

/// The records of the first `n` layers, or the first reason one of them
/// cannot be written.
pub open spec fn records_upto(ls: Seq<LayerView>, w: u32, h: u32, n: nat) -> Result<Seq<u8>, ProjectError>
    decreases n,
{
    if n == 0 {
        Ok(Seq::empty())
    } else {
        match records_upto(ls, w, h, (n - 1) as nat) {
            Err(e) => Err(e),
            Ok(front) => match layer_record(ls[n - 1], w, h, (n - 1) as nat) {
                Err(e) => Err(e),
                Ok(r) => Ok(front + r),
            },
        }
    }
}

/// The project file of a document, or why it cannot be written. Sizes and
/// counts are written as `u32`.
pub open spec fn spec_encode(d: DocView) -> Result<Seq<u8>, ProjectError> {
    let w = d.width as u32;
    let h = d.height as u32;
    match records_upto(d.layers, w, h, d.layers.len()) {
        Err(e) => Err(e),
        Ok(recs) => Ok(header_bytes(w, h, d.layers.len() as u32, d.active as u32) + recs),
    }
}

/// Writes values one by one, little-endian.
struct Writer {
    buf: Vec<u8>,
}

impl Writer {
    fn new() -> (w: Self)
        ensures
            w.buf@ == Seq::<u8>::empty(),
    {
        Writer { buf: Vec::new() }
    }

    fn u8(&mut self, v: u8)
        ensures
            final(self).buf@ == old(self).buf@.push(v),
    {
        self.buf.push(v);
    }

    fn u32(&mut self, v: u32)
        ensures
            final(self).buf@ == old(self).buf@ + le32(v),
    {
        self.buf.push((v % 256) as u8);
        self.buf.push((v / 256 % 256) as u8);
        self.buf.push((v / 65536 % 256) as u8);
        self.buf.push((v / 16777216) as u8);
        assert(final(self).buf@ =~= old(self).buf@ + le32(v));
    }

    /// Writes a single given by its bits.
    fn single(&mut self, bits: u32)
        ensures
            final(self).buf@ == old(self).buf@ + le32(bits),
    {
        self.u32(bits);
    }

    fn bytes(&mut self, v: &[u8])
        ensures
            final(self).buf@ == old(self).buf@ + v@,
    {
        let mut i: usize = 0;
        while i < v.len()
            invariant
                i <= v@.len(),
                self.buf@ == old(self).buf@ + v@.subrange(0, i as int),
            decreases v@.len() - i,
        {
            self.buf.push(v[i]);
            i = i + 1;
            assert(self.buf@ =~= old(self).buf@ + v@.subrange(0, i as int));
        }
        assert(v@.subrange(0, v@.len() as int) =~= v@);
    }
}

fn blend_number(m: BlendMode) -> (i: u32)
    ensures
        i == blend_index(m),
{
    match m {
        BlendMode::Normal => 0,
        BlendMode::Multiply => 1,
        BlendMode::Screen => 2,
        BlendMode::Overlay => 3,
        BlendMode::Add => 4,
        _ => 0,
    }
}

fn flag_byte(b: bool) -> (v: u8)
    ensures
        v == flag(b),
{
    if b {
        1
    } else {
        0
    }
}

fn str_bytes(s: &String) -> (b: &[u8])
    ensures
        b@ == encode_utf8(s@),
{
    s.as_str().as_bytes()
}

fn write_front(out: &mut Writer, m: &LayerMeta, png: &Vec<u8>)
    ensures
        final(out).buf@ == old(out).buf@ + record_front(m@, png@),
{
    let name = str_bytes(&m.name);
    out.u32(name.len() as u32);
    out.bytes(name);
    out.u8(flag_byte(m.visible));
    out.u8(flag_byte(m.locked));
    out.single(m.opacity);
    out.u32(blend_number(m.blend));
    out.u32(png.len() as u32);
    out.bytes(png.as_slice());
    assert(final(out).buf@ =~= old(out).buf@ + record_front(m@, png@));
}

fn write_mask(out: &mut Writer, on: bool, mpng: &Option<Vec<u8>>)
    ensures
        final(out).buf@ == old(out).buf@ + mask_part(
            on,
            match mpng {
                Some(p) => Some(p@),
                None => None,
            },
        ),
{
    match mpng {
        Some(mp) => {
            out.u8(1);
            out.u8(flag_byte(on));
            out.u32(mp.len() as u32);
            out.bytes(mp.as_slice());
            assert(final(out).buf@ =~= old(out).buf@ + mask_part(on, Some(mp@)));
        },
        None => {
            out.u8(0);
            assert(final(out).buf@ =~= old(out).buf@ + mask_part(on, None));
        },
    }
}

fn write_tail(out: &mut Writer, m: &LayerMeta)
    ensures
        final(out).buf@ == old(out).buf@ + record_tail(m@),
{
    match &m.group {
        Some(g) => {
            let gb = str_bytes(g);
            out.u32(gb.len() as u32);
            out.bytes(gb);
        },
        None => {
            out.u32(0);
        },
    }
    out.u8(flag_byte(m.group_open));
    assert(final(out).buf@ =~= old(out).buf@ + record_tail(m@));
}

/// Appends the record of one layer, or says why it cannot be written.
fn write_layer(out: &mut Writer, l: &Layer, w: u32, h: u32, i: usize) -> (r: Result<(), ProjectError>)
    ensures
        match layer_record(l@, w, h, i as nat) {
            Ok(rec) => r is Ok && final(out).buf@ == old(out).buf@ + rec,
            Err(e) => r == Err::<(), ProjectError>(e),
        },
{
    assert(w * h <= 0xFFFF_FFFF * 0xFFFF_FFFF) by (nonlinear_arith)
        requires
            w <= 0xFFFF_FFFF,
            h <= 0xFFFF_FFFF,
    ;
    let wh: u128 = w as u128 * h as u128;
    if (l.pixels.len() as u128) < wh * 4 {
        return Err(ProjectError::LayerPixels(i));
    }
    let png = match encode_png_rgba(w, h, l.pixels.as_slice()) {
        Ok(v) => v,
        Err(_) => {
            return Err(ProjectError::Png(i));
        },
    };
    let mpng: Option<Vec<u8>> = match &l.mask {
        None => None,
        Some(m) => {
            if (m.len() as u128) < wh {
                return Err(ProjectError::MaskPixels(i));
            }
            match encode_png_gray(w, h, m.as_slice()) {
                Ok(v) => Some(v),
                Err(_) => {
                    return Err(ProjectError::Png(i));
                },
            }
        },
    };
    write_front(out, &l.meta, &png);
    write_mask(out, l.mask_on, &mpng);
    write_tail(out, &l.meta);
    proof {
        assert(out.buf@ =~= old(out).buf@ + (record_front(l@.meta, png@) + mask_part(
            l.mask_on,
            match mpng {
                Some(p) => Some(p@),
                None => None,
            },
        ) + record_tail(l@.meta)));
    }
    Ok(())
}

proof fn lemma_records_err(ls: Seq<LayerView>, w: u32, h: u32, k: nat, n: nat, e: ProjectError)
    requires
        k <= n,
        records_upto(ls, w, h, k) == Err::<Seq<u8>, ProjectError>(e),
    ensures
        records_upto(ls, w, h, n) == Err::<Seq<u8>, ProjectError>(e),
    decreases n - k,
{
    if k < n {
        lemma_records_err(ls, w, h, k + 1, n, e);
    }
}

/// The project file of a document (see `spec_encode`).
pub fn encode(doc: &Document) -> (r: Result<Vec<u8>, ProjectError>)
    ensures
        match spec_encode(doc@) {
            Ok(b) => r matches Ok(v) && v@ == b,
            Err(e) => r == Err::<Vec<u8>, ProjectError>(e),
        },
{
    let w = doc.width as u32;
    let h = doc.height as u32;
    let n = doc.layers.len();
    let mut out = Writer::new();
    let mut k: usize = 0;
    while k < 8
        invariant
            k <= 8,
            out.buf@ == MAGIC@.subrange(0, k as int),
        decreases 8 - k,
    {
        out.u8(MAGIC[k]);
        k = k + 1;
        assert(out.buf@ =~= MAGIC@.subrange(0, k as int));
    }
    assert(MAGIC@.subrange(0, 8) =~= MAGIC@);
    out.u32(VERSION);
    out.u32(w);
    out.u32(h);
    out.u32(n as u32);
    out.u32(doc.active as u32);
    let ghost head = out.buf@;
    assert(head =~= header_bytes(w, h, n as u32, doc.active as u32));
    let mut i: usize = 0;
    while i < n
        invariant
            n == doc.layers@.len(),
            n == doc@.layers.len(),
            w == doc.width as u32,
            h == doc.height as u32,
            i <= n,
            records_upto(doc@.layers, w, h, i as nat) matches Ok(recs) && out.buf@ == head + recs,
        decreases n - i,
    {
        let ghost before = out.buf@;
        let ghost recs = records_upto(doc@.layers, w, h, i as nat)->Ok_0;
        assert(doc@.layers[i as int] == doc.layers@[i as int]@);
        match write_layer(&mut out, &doc.layers[i], w, h, i) {
            Ok(()) => {
                assert(out.buf@ =~= head + (recs + layer_record(doc@.layers[i as int], w, h, i as nat)->Ok_0));
            },
            Err(e) => {
                proof {
                    lemma_records_err(doc@.layers, w, h, (i + 1) as nat, n as nat, e);
                }
                return Err(e);
            },
        }
        i = i + 1;
    }
    Ok(out.buf)
}


/// The mask part of a layer record at `p`: the mask, its on flag and where
/// the record goes on. Files before version 2 have no mask part.
pub open spec fn parse_mask(b: Seq<u8>, p: int, version: u32, w: u32, h: u32, i: nat) -> Result<(Option<Seq<u8>>, bool, int), ProjectError> {
    if version < 2 {
        Ok((None, true, p))
    } else if p + 1 > b.len() {
        Err(ProjectError::Truncated)
    } else if b[p] == 0 {
        Ok((None, true, p + 1))
    } else if p + 2 > b.len() {
        Err(ProjectError::Truncated)
    } else {
        let on = b[p + 1] != 0;
        let q = p + 2;
        if q + 4 > b.len() {
            Err(ProjectError::Truncated)
        } else {
            let n = u32_at(b, q);
            let q = q + 4;
            if q + n > b.len() {
                Err(ProjectError::Truncated)
            } else {
                match gray_of_png(b.subrange(q, q + n)) {
                    None => Err(ProjectError::BrokenMask(i as usize)),
                    Some(img) => if img.0 != w || img.1 != h || img.2.len() != w * h {
                        Err(ProjectError::MaskSize(i as usize))
                    } else {
                        Ok((Some(img.2), on, q + n))
                    },
                }
            }
        }
    }
}

/// The folder part of a layer record at `p`: the folder name, its open flag
/// and where the record ends. Files before version 3 have no folder part.
pub open spec fn parse_group(b: Seq<u8>, p: int, version: u32) -> Result<(Option<Seq<char>>, bool, int), ProjectError> {
    if version < 3 {
        Ok((None, true, p))
    } else if p + 4 > b.len() {
        Err(ProjectError::Truncated)
    } else {
        let n = u32_at(b, p);
        let q = p + 4;
        if n > MAX_GROUP {
            Err(ProjectError::GroupName)
        } else if q + n > b.len() {
            Err(ProjectError::Truncated)
        } else if n > 0 && !valid_utf8(b.subrange(q, q + n)) {
            Err(ProjectError::GroupNotUtf8)
        } else if q + n + 1 > b.len() {
            Err(ProjectError::Truncated)
        } else {
            let g = if n > 0 {
                Some(decode_utf8(b.subrange(q, q + n)))
            } else {
                None
            };
            Ok((g, b[q + n] != 0, q + n + 1))
        }
    }
}

/// The fixed fields at the start of a layer record.
pub struct LayerHead {
    pub name: Seq<char>,
    pub visible: bool,
    pub locked: bool,
    pub opacity: u32,
    pub blend: BlendMode,
    pub png: Seq<u8>,
    /// Where the record goes on.
    pub end: int,
}

/// The start of the layer record at `p`: name, flags, opacity, blending
/// and the PNG of the pixels; the opacity is held within `0.0..=1.0` and an
/// unknown blend index reads as `Normal`.
pub open spec fn layer_head(b: Seq<u8>, p: int) -> Result<LayerHead, ProjectError> {
    let nlen = u32_at(b, p);
    let p1 = p + 4;
    let p2 = p1 + nlen;
    let plen = u32_at(b, p2 + 10);
    let p3 = p2 + 14;
    if p + 4 > b.len() {
        Err(ProjectError::Truncated)
    } else if nlen > MAX_NAME {
        Err(ProjectError::LayerName)
    } else if p2 > b.len() {
        Err(ProjectError::Truncated)
    } else if !valid_utf8(b.subrange(p1, p2)) {
        Err(ProjectError::NameNotUtf8)
    } else if p3 > b.len() || p3 + plen > b.len() {
        Err(ProjectError::Truncated)
    } else {
        Ok(
            LayerHead {
                name: decode_utf8(b.subrange(p1, p2)),
                visible: b[p2] != 0,
                locked: b[p2 + 1] != 0,
                opacity: clamp_unit(u32_at(b, p2 + 2)),
                blend: blend_at(u32_at(b, p2 + 6)),
                png: b.subrange(p3, p3 + plen),
                end: p3 + plen,
            },
        )
    }
}

/// The rest of a layer record after its head, once its pixels are decoded.
pub open spec fn layer_tail(b: Seq<u8>, hd: LayerHead, pixels: Seq<u8>, version: u32, w: u32, h: u32, i: nat) -> Result<(LayerView, int), ProjectError> {
    match parse_mask(b, hd.end, version, w, h, i) {
        Err(e) => Err(e),
        Ok(mk) => match parse_group(b, mk.2, version) {
            Err(e) => Err(e),
            Ok(gr) => Ok(
                (
                    LayerView {
                        meta: MetaView {
                            name: hd.name,
                            visible: hd.visible,
                            locked: hd.locked,
                            opacity: hd.opacity,
                            blend: hd.blend,
                            group: gr.0,
                            group_open: gr.1,
                        },
                        pixels: pixels,
                        mask: mk.0,
                        mask_on: mk.1,
                    },
                    gr.2,
                ),
            ),
        },
    }
}

/// The layer record at `p` (layer `i` of a `w`×`h` canvas) and where it
/// ends, or why it cannot be read.
pub open spec fn parse_layer(b: Seq<u8>, p: int, version: u32, w: u32, h: u32, i: nat) -> Result<(LayerView, int), ProjectError> {
    match layer_head(b, p) {
        Err(e) => Err(e),
        Ok(hd) => match rgba_of_png(hd.png) {
            None => Err(ProjectError::BrokenLayer(i as usize)),
            Some(img) => if img.0 != w || img.1 != h || img.2.len() != w * h * 4 {
                Err(ProjectError::LayerSize(i as usize))
            } else {
                layer_tail(b, hd, img.2, version, w, h, i)
            },
        },
    }
}

/// Layers `i..count` read one after another from `p`.
pub open spec fn parse_layers(b: Seq<u8>, p: int, version: u32, w: u32, h: u32, i: nat, count: nat) -> Result<Seq<LayerView>, ProjectError>
    decreases count - i,
{
    if i >= count {
        Ok(Seq::empty())
    } else {
        match parse_layer(b, p, version, w, h, i) {
            Err(e) => Err(e),
            Ok(r) => match parse_layers(b, r.1, version, w, h, i + 1, count) {
                Err(e) => Err(e),
                Ok(rest) => Ok(seq![r.0] + rest),
            },
        }
    }
}

/// The fixed fields at the start of a project file.
pub struct ProjectHeader {
    pub version: u32,
    pub width: u32,
    pub height: u32,
    pub count: u32,
    pub active: u32,
}

/// The header of a project file, checked: signature, a version this
/// library knows, a canvas of sides `1..=32768` whose pixels fit in memory,
/// and `1..=512` layers.
pub open spec fn parse_header(b: Seq<u8>) -> Result<ProjectHeader, ProjectError> {
    if b.len() < 8 {
        Err(ProjectError::Truncated)
    } else if b.subrange(0, 8) != MAGIC@ {
        Err(ProjectError::NotProject)
    } else if b.len() < 12 {
        Err(ProjectError::Truncated)
    } else if u32_at(b, 8) > VERSION {
        Err(ProjectError::Newer(u32_at(b, 8)))
    } else if b.len() < 28 {
        Err(ProjectError::Truncated)
    } else {
        let w = u32_at(b, 12);
        let h = u32_at(b, 16);
        let count = u32_at(b, 20);
        if w == 0 || h == 0 || w > MAX_CANVAS || h > MAX_CANVAS || w * h * 4 > usize::MAX {
            Err(ProjectError::CanvasSize(w, h))
        } else if count == 0 || count > MAX_LAYERS {
            Err(ProjectError::LayerCount(count))
        } else {
            Ok(ProjectHeader { version: u32_at(b, 8), width: w, height: h, count, active: u32_at(b, 24) })
        }
    }
}

/// The document of a checked header and the layers read after it.
pub open spec fn with_layers(hd: ProjectHeader, ls: Result<Seq<LayerView>, ProjectError>) -> Result<DocView, ProjectError> {
    match ls {
        Err(e) => Err(e),
        Ok(ls) => Ok(
            DocView {
                width: hd.width as nat,
                height: hd.height as nat,
                layers: ls,
                active: if hd.active < hd.count {
                    hd.active as nat
                } else {
                    (hd.count - 1) as nat
                },
            },
        ),
    }
}

/// The document a project file holds, or why it cannot be read. The active
/// layer is held within the layers.
pub open spec fn spec_decode(b: Seq<u8>) -> Result<DocView, ProjectError> {
    match parse_header(b) {
        Err(e) => Err(e),
        Ok(hd) => with_layers(hd, parse_layers(b, 28, hd.version, hd.width, hd.height, 0, hd.count as nat)),
    }
}

/// Reads values one by one with bounds checks.
struct Reader<'a> {
    buf: &'a [u8],
    pos: usize,
}

impl<'a> Reader<'a> {
    spec fn wf(&self) -> bool {
        self.pos <= self.buf@.len()
    }

    fn take(&mut self, n: usize) -> (r: Result<&'a [u8], ProjectError>)
        requires
            old(self).wf(),
        ensures
            final(self).wf(),
            final(self).buf == old(self).buf,
            old(self).pos + n > old(self).buf@.len() ==> r == Err::<&'a [u8], ProjectError>(ProjectError::Truncated)
                && final(self).pos == old(self).pos,
            old(self).pos + n <= old(self).buf@.len() ==> (r matches Ok(s) && s@ == old(self).buf@.subrange(
                old(self).pos as int,
                old(self).pos + n,
            ) && final(self).pos == old(self).pos + n),
    {
        if n > self.buf.len() - self.pos {
            return Err(ProjectError::Truncated);
        }
        let s = &self.buf[self.pos..self.pos + n];
        self.pos = self.pos + n;
        Ok(s)
    }

    fn u8(&mut self) -> (r: Result<u8, ProjectError>)
        requires
            old(self).wf(),
        ensures
            final(self).wf(),
            final(self).buf == old(self).buf,
            old(self).pos + 1 > old(self).buf@.len() ==> r == Err::<u8, ProjectError>(ProjectError::Truncated)
                && final(self).pos == old(self).pos,
            old(self).pos + 1 <= old(self).buf@.len() ==> r == Ok::<u8, ProjectError>(
                old(self).buf@[old(self).pos as int],
            ) && final(self).pos == old(self).pos + 1,
    {
        let s = self.take(1)?;
        Ok(s[0])
    }

    fn u32(&mut self) -> (r: Result<u32, ProjectError>)
        requires
            old(self).wf(),
        ensures
            final(self).wf(),
            final(self).buf == old(self).buf,
            old(self).pos + 4 > old(self).buf@.len() ==> r == Err::<u32, ProjectError>(ProjectError::Truncated)
                && final(self).pos == old(self).pos,
            old(self).pos + 4 <= old(self).buf@.len() ==> r == Ok::<u32, ProjectError>(
                u32_at(old(self).buf@, old(self).pos as int),
            ) && final(self).pos == old(self).pos + 4,
    {
        let s = self.take(4)?;
        Ok(s[0] as u32 + s[1] as u32 * 256 + s[2] as u32 * 65536 + s[3] as u32 * 16777216)
    }

    /// Reads the bits of a single.
    fn single(&mut self) -> (r: Result<u32, ProjectError>)
        requires
            old(self).wf(),
        ensures
            final(self).wf(),
            final(self).buf == old(self).buf,
            old(self).pos + 4 > old(self).buf@.len() ==> r == Err::<u32, ProjectError>(ProjectError::Truncated)
                && final(self).pos == old(self).pos,
            old(self).pos + 4 <= old(self).buf@.len() ==> r == Ok::<u32, ProjectError>(
                u32_at(old(self).buf@, old(self).pos as int),
            ) && final(self).pos == old(self).pos + 4,
    {
        self.u32()
    }
}

fn clamp_unit_bits(b: u32) -> (r: u32)
    ensures
        r == clamp_unit(b),
{
    if 0x8000_0000 < b && b <= 0xFF80_0000 {
        0
    } else if 0x3F80_0000 < b && b <= 0x7F80_0000 {
        0x3F80_0000
    } else {
        b
    }
}

fn blend_from(i: u32) -> (m: BlendMode)
    ensures
        m == blend_at(i),
{
    if i == 1 {
        BlendMode::Multiply
    } else if i == 2 {
        BlendMode::Screen
    } else if i == 3 {
        BlendMode::Overlay
    } else if i == 4 {
        BlendMode::Add
    } else {
        BlendMode::Normal
    }
}

fn read_mask(r: &mut Reader, version: u32, w: u32, h: u32, i: usize) -> (res: Result<(Option<Vec<u8>>, bool), ProjectError>)
    requires
        old(r).wf(),
    ensures
        final(r).wf(),
        final(r).buf == old(r).buf,
        match parse_mask(old(r).buf@, old(r).pos as int, version, w, h, i as nat) {
            Ok(t) => res matches Ok(v) && (match v.0 {
                Some(m) => Some(m@),
                None => None,
            }) == t.0 && v.1 == t.1 && final(r).pos == t.2,
            Err(e) => res == Err::<(Option<Vec<u8>>, bool), ProjectError>(e),
        },
{
    if version < 2 {
        return Ok((None, true));
    }
    let has = r.u8()?;
    if has == 0 {
        return Ok((None, true));
    }
    let on = r.u8()? != 0;
    let n = r.u32()?;
    let png = r.take(n as usize)?;
    match decode_png_gray(png) {
        Err(_) => Err(ProjectError::BrokenMask(i)),
        Ok((mw, mh, px)) => {
            assert(w * h <= 0xFFFF_FFFF * 0xFFFF_FFFF) by (nonlinear_arith)
                requires
                    w <= 0xFFFF_FFFF,
                    h <= 0xFFFF_FFFF,
            ;
            if mw != w || mh != h || px.len() as u128 != w as u128 * h as u128 {
                Err(ProjectError::MaskSize(i))
            } else {
                Ok((Some(px), on))
            }
        },
    }
}

fn read_group(r: &mut Reader, version: u32) -> (res: Result<(Option<String>, bool), ProjectError>)
    requires
        old(r).wf(),
    ensures
        final(r).wf(),
        final(r).buf == old(r).buf,
        match parse_group(old(r).buf@, old(r).pos as int, version) {
            Ok(t) => res matches Ok(v) && (match v.0 {
                Some(g) => Some(g@),
                None => None,
            }) == t.0 && v.1 == t.1 && final(r).pos == t.2,
            Err(e) => res == Err::<(Option<String>, bool), ProjectError>(e),
        },
{
    if version < 3 {
        return Ok((None, true));
    }
    let n = r.u32()?;
    if n > MAX_GROUP {
        return Err(ProjectError::GroupName);
    }
    let mut group: Option<String> = None;
    if n > 0 {
        let g = r.take(n as usize)?;
        match string_from_utf8(vstd::slice::slice_to_vec(g)) {
            None => {
                return Err(ProjectError::GroupNotUtf8);
            },
            Some(s) => {
                group = Some(s);
            },
        }
    }
    let open = r.u8()? != 0;
    Ok((group, open))
}

fn read_layer(r: &mut Reader, version: u32, w: u32, h: u32, i: usize) -> (res: Result<Layer, ProjectError>)
    requires
        old(r).wf(),
    ensures
        final(r).wf(),
        final(r).buf == old(r).buf,
        match parse_layer(old(r).buf@, old(r).pos as int, version, w, h, i as nat) {
            Ok(t) => res matches Ok(l) && l@ == t.0 && final(r).pos == t.1,
            Err(e) => res == Err::<Layer, ProjectError>(e),
        },
{
    let ghost b = r.buf@;
    let ghost p = r.pos as int;
    let nlen = r.u32()?;
    if nlen > MAX_NAME {
        return Err(ProjectError::LayerName);
    }
    let nb = r.take(nlen as usize)?;
    let name = match string_from_utf8(vstd::slice::slice_to_vec(nb)) {
        None => {
            return Err(ProjectError::NameNotUtf8);
        },
        Some(s) => s,
    };
    let ghost p2 = r.pos as int;
    if r.pos > r.buf.len() || r.buf.len() - r.pos < 14 {
        return Err(ProjectError::Truncated);
    }
    let visible = r.u8()? != 0;
    let locked = r.u8()? != 0;
    let opacity = clamp_unit_bits(r.single()?);
    let blend = blend_from(r.u32()?);
    let plen = r.u32()?;
    let png = r.take(plen as usize)?;
    let (iw, ih, pixels) = match decode_png_rgba(png) {
        Err(_) => {
            return Err(ProjectError::BrokenLayer(i));
        },
        Ok(t) => t,
    };
    assert(w * h <= 0xFFFF_FFFF * 0xFFFF_FFFF) by (nonlinear_arith)
        requires
            w <= 0xFFFF_FFFF,
            h <= 0xFFFF_FFFF,
    ;
    if iw != w || ih != h || pixels.len() as u128 != w as u128 * h as u128 * 4 {
        return Err(ProjectError::LayerSize(i));
    }
    let (mask, mask_on) = read_mask(r, version, w, h, i)?;
    let (group, group_open) = read_group(r, version)?;
    Ok(
        Layer {
            meta: LayerMeta { name, visible, locked, opacity, blend, group, group_open },
            pixels,
            mask,
            mask_on,
        },
    )
}


/// The result of reading layers `i..count` from `p`, after the layers
/// `acc` read before them.
pub open spec fn after(acc: Seq<LayerView>, rest: Result<Seq<LayerView>, ProjectError>) -> Result<Seq<LayerView>, ProjectError> {
    match rest {
        Ok(ls) => Ok(acc + ls),
        Err(e) => Err(e),
    }
}

/// Reads the document in a project file (see `spec_decode`). It has the
/// size read, no composite yet (all zero) and one change counted.
pub fn decode(data: &[u8]) -> (r: Result<Document, ProjectError>)
    ensures
        match spec_decode(data@) {
            Ok(dv) => r matches Ok(d) && d@ == dv && d.wf() && d.composite@ == Seq::new(
                dv.width * dv.height * 4,
                |i: int| 0u8,
            ) && d.rev == 1 && d.shown_rev == u64::MAX,
            Err(e) => r == Err::<Document, ProjectError>(e),
        },
{
    let ghost b = data@;
    let mut r = Reader { buf: data, pos: 0 };
    let magic = r.take(8)?;
    let mut k: usize = 0;
    while k < 8
        invariant
            k <= 8,
            magic@.len() == 8,
            data@.len() >= 8,
            magic@ == data@.subrange(0, 8),
            forall|j: int| 0 <= j < k ==> magic@[j] == MAGIC@[j],
        decreases 8 - k,
    {
        if magic[k] != MAGIC[k] {
            assert(magic@[k as int] != MAGIC@[k as int]);
            assert(magic@ != MAGIC@);
            return Err(ProjectError::NotProject);
        }
        k = k + 1;
    }
    assert(magic@ =~= MAGIC@);
    let version = r.u32()?;
    if version > VERSION {
        return Err(ProjectError::Newer(version));
    }
    let width = r.u32()?;
    let height = r.u32()?;
    let count = r.u32()?;
    let active = r.u32()?;
    assert(width * height <= 0xFFFF_FFFF * 0xFFFF_FFFF) by (nonlinear_arith)
        requires
            width <= 0xFFFF_FFFF,
            height <= 0xFFFF_FFFF,
    ;
    if width == 0 || height == 0 || width > MAX_CANVAS || height > MAX_CANVAS || width as u128 * height as u128 * 4
        > usize::MAX as u128 {
        return Err(ProjectError::CanvasSize(width, height));
    }
    if count == 0 || count > MAX_LAYERS {
        return Err(ProjectError::LayerCount(count));
    }
    let mut layers: Vec<Layer> = Vec::new();
    let mut i: u32 = 0;
    assert(r.pos == 28);
    let ghost hd = ProjectHeader { version, width, height, count, active };
    assert(parse_header(b) == Ok::<ProjectHeader, ProjectError>(hd));
    while i < count
        invariant
            r.wf(),
            r.buf@ == b,
            b == data@,
            parse_header(b) == Ok::<ProjectHeader, ProjectError>(hd),
            hd == (ProjectHeader { version, width, height, count, active }),
            width * height * 4 <= usize::MAX,
            0 < count <= MAX_LAYERS,
            i <= count,
            layers@.len() == i,
            forall|j: int| 0 <= j < i ==> (#[trigger] layers@[j])@.pixels.len() == width * height * 4,
            parse_layers(b, 28, version, width, height, 0, count as nat) == after(
                layers@.map_values(|l: Layer| l@),
                parse_layers(b, r.pos as int, version, width, height, i as nat, count as nat),
            ),
        decreases count - i,
    {
        let ghost acc = layers@.map_values(|l: Layer| l@);
        let ghost pos = r.pos as int;
        let l = match read_layer(&mut r, version, width, height, i as usize) {
            Ok(l) => l,
            Err(e) => {
                assert(parse_layers(b, pos, version, width, height, i as nat, count as nat) == Err::<
                    Seq<LayerView>,
                    ProjectError,
                >(e));
                assert(parse_layers(b, 28, version, width, height, 0, count as nat) == Err::<
                    Seq<LayerView>,
                    ProjectError,
                >(e));
                assert(spec_decode(b) == Err::<DocView, ProjectError>(e));
                return Err(e);
            },
        };
        layers.push(l);
        proof {
            let rest = parse_layers(b, r.pos as int, version, width, height, (i + 1) as nat, count as nat);
            assert(layers@.map_values(|l: Layer| l@) =~= acc.push(l@));
            match rest {
                Ok(ls) => {
                    assert(acc + (seq![l@] + ls) =~= acc.push(l@) + ls);
                },
                Err(e) => {},
            }
        }
        i = i + 1;
    }
    let n = layers.len();
    let last = n - 1;
    let mut doc = Document::empty();
    doc.width = width as usize;
    doc.height = height as usize;
    doc.layers = layers;
    doc.active = if (active as usize) < n {
        active as usize
    } else {
        last
    };
    doc.composite = crate::doc::zeros(width as usize * height as usize * 4);
    doc.touch();
    proof {
        assert(parse_layers(b, r.pos as int, version, width, height, count as nat, count as nat) == Ok::<
            Seq<LayerView>,
            ProjectError,
        >(Seq::empty()));
        assert(doc@.layers =~= doc.layers@.map_values(|l: Layer| l@));
        assert(doc.layers@.map_values(|l: Layer| l@) + Seq::<LayerView>::empty() =~= doc.layers@.map_values(
            |l: Layer| l@,
        ));
    }
    Ok(doc)
}

} // verus!
