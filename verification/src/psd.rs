//! Photoshop documents (PSD): layers, masks, layer folders and the merged
//! image, with channel rows stored raw or PackBits-compressed.
//!
//! Reading is in `psd_read`, writing in `psd_write`; both are re-exported
//! here. This file holds the data model and the blend-mode keys.
use crate::doc::BlendMode;
use vstd::prelude::*;

pub use crate::psd_read::{read, read_file};
use crate::psd_write::{
    group_record, lemma_records_pixel_ok, pixel_record, pixel_records_ok, push_bytes, push_u16, push_u32,
    record_view, records, spec_records, spec_body, spec_write, spec_write_layers, write_header, write_merged,
    opt_index, out_layer_view, writes_pixels,
};

verus! {

/// A decoded image, RGBA8, row by row from the top.
pub struct PsdImage {
    pub width: usize,
    pub height: usize,
    pub pixels: Vec<u8>,
}

/// What a layer record is by its PSD section: a plain layer, an open or a
/// closed folder, or the hidden marker that closes a folder from below.
#[derive(Clone, Copy, PartialEq, Eq, Debug, Structural)]
pub enum LayerKind {
    Pixel,
    GroupOpen,
    GroupClosed,
    Bounding,
}

/// A layer mask: coverage 0..=255, where 255 shows the layer.
pub struct PsdMask {
    pub left: i32,
    pub top: i32,
    pub width: usize,
    pub height: usize,
    pub data: Vec<u8>,
    /// The mask is switched off in the file itself.
    pub disabled: bool,
}

/// A PSD layer: frame, channel planes, mask and blending settings.
pub struct PsdLayer {
    pub name: String,
    pub kind: LayerKind,
    pub visible: bool,
    /// Opacity 0..=255.
    pub opacity: u8,
    pub blend: BlendMode,
    /// The blend key as stored in the file; it tells which unknown mode was
    /// read as `Normal`.
    pub blend_key: [u8; 4],
    /// Clipped to the layer below.
    pub clipped: bool,
    pub left: i32,
    pub top: i32,
    pub width: usize,
    pub height: usize,
    /// Channel planes by PSD channel id: -1 is alpha, 0..2 are RGB.
    pub planes: Vec<(i16, Vec<u8>)>,
    pub mask: Option<PsdMask>,
}

/// A whole PSD: layers bottom to top, as in the file, and the merged image.
pub struct PsdFile {
    pub width: usize,
    pub height: usize,
    pub layers: Vec<PsdLayer>,
    pub merged: PsdImage,
}

/// A layer to be written. Layer 0 is the bottom one, as in the document.
pub struct OutLayer<'a> {
    pub name: &'a str,
    /// Layer pixels over the whole canvas, RGBA8.
    pub rgba: &'a [u8],
    /// Layer mask, one coverage byte per canvas pixel.
    pub mask: Option<&'a [u8]>,
    pub opacity: u8,
    pub visible: bool,
    pub blend: BlendMode,
    /// Name of the folder the layer is in.
    pub group: Option<&'a str>,
    /// The layer is the header of its folder.
    pub group_header: bool,
    pub group_open: bool,
}

/// Why a PSD could not be read.
#[derive(Clone, Copy, PartialEq, Eq, Debug, Structural)]
pub enum PsdError {
    /// The data ends before a field it announces.
    Truncated,
    /// No `8BPS` signature.
    NotPsd,
    /// Unsupported format version.
    Version(u16),
    /// Width or height is zero or above the accepted maximum.
    Size(u32, u32),
    /// Channel depth other than 8 bits.
    Depth(u16),
    /// Colour mode other than RGB.
    Mode(u16),
    /// Channel count other than 3 or 4.
    Channels(u16),
    /// The layer and mask block is longer than the data.
    LayerBlockTooLong,
    /// More than 4096 layers.
    TooManyLayers(u16),
    /// A layer with more than 64 channels.
    TooManyChannels,
    /// A layer's extra data is longer than the data.
    ExtraTooLong,
    /// A compressed channel row runs past the end of the data.
    RowPastEnd,
    /// A compressed channel row does not unpack to a full row.
    Rle,
    /// Unknown channel compression.
    Compression(u16),
}

/// What a decoded image holds.
pub struct ImageModel {
    pub width: nat,
    pub height: nat,
    pub pixels: Seq<u8>,
}

/// What a layer mask holds.
pub struct MaskModel {
    pub left: i32,
    pub top: i32,
    pub width: nat,
    pub height: nat,
    pub data: Seq<u8>,
    pub disabled: bool,
}

/// What a PSD layer holds.
pub struct LayerModel {
    pub name: Seq<char>,
    pub kind: LayerKind,
    pub visible: bool,
    pub opacity: u8,
    pub blend: BlendMode,
    pub blend_key: Seq<u8>,
    pub clipped: bool,
    pub left: i32,
    pub top: i32,
    pub width: nat,
    pub height: nat,
    pub planes: Seq<(i16, Seq<u8>)>,
    pub mask: Option<MaskModel>,
}

/// What a whole PSD holds.
pub struct FileModel {
    pub width: nat,
    pub height: nat,
    pub layers: Seq<LayerModel>,
    pub merged: ImageModel,
}

impl View for PsdImage {
    type V = ImageModel;

    open spec fn view(&self) -> ImageModel {
        ImageModel { width: self.width as nat, height: self.height as nat, pixels: self.pixels@ }
    }
}

impl View for PsdMask {
    type V = MaskModel;

    open spec fn view(&self) -> MaskModel {
        MaskModel {
            left: self.left,
            top: self.top,
            width: self.width as nat,
            height: self.height as nat,
            data: self.data@,
            disabled: self.disabled,
        }
    }
}

pub open spec fn plane_view(p: (i16, Vec<u8>)) -> (i16, Seq<u8>) {
    (p.0, p.1@)
}

pub open spec fn mask_view(m: Option<PsdMask>) -> Option<MaskModel> {
    match m {
        Some(m) => Some(m@),
        None => None,
    }
}

impl View for PsdLayer {
    type V = LayerModel;

    open spec fn view(&self) -> LayerModel {
        LayerModel {
            name: self.name@,
            kind: self.kind,
            visible: self.visible,
            opacity: self.opacity,
            blend: self.blend,
            blend_key: self.blend_key@,
            clipped: self.clipped,
            left: self.left,
            top: self.top,
            width: self.width as nat,
            height: self.height as nat,
            planes: self.planes@.map_values(|p: (i16, Vec<u8>)| plane_view(p)),
            mask: mask_view(self.mask),
        }
    }
}

pub open spec fn layer_view(l: PsdLayer) -> LayerModel {
    l@
}

impl View for PsdFile {
    type V = FileModel;

    open spec fn view(&self) -> FileModel {
        FileModel {
            width: self.width as nat,
            height: self.height as nat,
            layers: self.layers@.map_values(|l: PsdLayer| layer_view(l)),
            merged: self.merged@,
        }
    }
}

/// The data of the first plane with channel id `id`; empty when there is
/// none.
pub open spec fn first_plane(planes: Seq<(i16, Seq<u8>)>, id: i16) -> Seq<u8>
    decreases planes.len(),
{
    if planes.len() == 0 {
        Seq::empty()
    } else if planes[0].0 == id {
        planes[0].1
    } else {
        first_plane(planes.drop_first(), id)
    }
}

/// Entry `i` of `s`, or `def` past its end.
pub open spec fn byte_or(s: Seq<u8>, i: int, def: u8) -> u8 {
    if 0 <= i < s.len() {
        s[i]
    } else {
        def
    }
}

/// The RGBA value of pixel `(x, y)` of the layer frame: transparent black
/// outside the frame or for a layer without planes; a missing colour plane
/// reads as 0, a missing alpha plane as opaque.
pub open spec fn spec_layer_pixel(l: LayerModel, x: int, y: int) -> [u8; 4] {
    if l.planes.len() == 0 || l.width == 0 || x >= l.width || y >= l.height {
        [0u8, 0u8, 0u8, 0u8]
    } else {
        let i = y * l.width + x;
        [
            byte_or(first_plane(l.planes, 0i16), i, 0),
            byte_or(first_plane(l.planes, 1i16), i, 0),
            byte_or(first_plane(l.planes, 2i16), i, 0),
            byte_or(first_plane(l.planes, -1i16), i, 255),
        ]
    }
}

impl PsdLayer {
    /// The plane of channel `id`; empty when the layer has no such channel.
    pub fn plane(&self, id: i16) -> (r: &[u8])
        ensures
            r@ == first_plane(self@.planes, id),
    {
        let ghost ps = self@.planes;
        let mut k: usize = 0;
        assert(ps.subrange(0, ps.len() as int) =~= ps);
        while k < self.planes.len()
            invariant
                k <= self.planes@.len(),
                ps == self@.planes,
                ps.len() == self.planes@.len(),
                first_plane(ps.subrange(k as int, ps.len() as int), id) == first_plane(ps, id),
            decreases self.planes@.len() - k,
        {
            let ghost rest = ps.subrange(k as int, ps.len() as int);
            assert(rest[0] == plane_view(self.planes@[k as int]));
            if self.planes[k].0 == id {
                return self.planes[k].1.as_slice();
            }
            assert(rest.drop_first() =~= ps.subrange(k + 1, ps.len() as int));
            k = k + 1;
        }
        let empty: &[u8] = &[];
        assert(empty@ =~= Seq::<u8>::empty());
        empty
    }

    /// The RGBA value of pixel `(x, y)` inside the layer frame.
    pub fn pixel(&self, x: usize, y: usize) -> (r: [u8; 4])
        requires
            self.width * self.height <= usize::MAX,
        ensures
            r == spec_layer_pixel(self@, x as int, y as int),
    {
        if self.planes.len() == 0 || self.width == 0 || x >= self.width || y >= self.height {
            return [0, 0, 0, 0];
        }
        assert(y * self.width + x < self.width * self.height) by (nonlinear_arith)
            requires
                x < self.width,
                y < self.height,
        ;
        let i = y * self.width + x;
        let r = self.plane(0);
        let g = self.plane(1);
        let b = self.plane(2);
        let a = self.plane(-1);
        let cr = if i < r.len() { r[i] } else { 0 };
        let cg = if i < g.len() { g[i] } else { 0 };
        let cb = if i < b.len() { b[i] } else { 0 };
        let ca = if i < a.len() { a[i] } else { 255 };
        [cr, cg, cb, ca]
    }
}

/// The largest accepted side of a PSD canvas.
pub const MAX_SIDE: usize = 30000;

/// The four bytes `a b c d` as a sequence.
pub open spec fn tag(a: u8, b: u8, c: u8, d: u8) -> Seq<u8> {
    seq![a, b, c, d]
}

/// The PSD key of a blend mode.
pub open spec fn spec_blend_key(m: BlendMode) -> Seq<u8> {
    match m {
        BlendMode::Normal => tag(0x6e, 0x6f, 0x72, 0x6d),  // "norm"
        BlendMode::Multiply => tag(0x6d, 0x75, 0x6c, 0x20),  // "mul "
        BlendMode::Screen => tag(0x73, 0x63, 0x72, 0x6e),  // "scrn"
        BlendMode::Overlay => tag(0x6f, 0x76, 0x65, 0x72),  // "over"
        BlendMode::Add => tag(0x6c, 0x69, 0x6e, 0x20),  // "lin "
        BlendMode::Darken => tag(0x64, 0x61, 0x72, 0x6b),  // "dark"
        BlendMode::Lighten => tag(0x6c, 0x69, 0x74, 0x65),  // "lite"
        BlendMode::Difference => tag(0x64, 0x69, 0x66, 0x66),  // "diff"
        BlendMode::ColorDodge => tag(0x64, 0x69, 0x76, 0x20),  // "div "
        BlendMode::ColorBurn => tag(0x69, 0x64, 0x69, 0x76),  // "idiv"
    }
}

/// The key "add ", an older spelling of linear dodge.
pub open spec fn add_key() -> Seq<u8> {
    tag(0x61, 0x64, 0x64, 0x20)
}

/// The blend mode that a PSD key stands for. Keys of modes this editor does
/// not have (colour, hue, soft light and the like) read as `Normal`.
pub open spec fn spec_blend_of(key: Seq<u8>) -> BlendMode {
    if key == spec_blend_key(BlendMode::Multiply) {
        BlendMode::Multiply
    } else if key == spec_blend_key(BlendMode::Screen) {
        BlendMode::Screen
    } else if key == spec_blend_key(BlendMode::Overlay) {
        BlendMode::Overlay
    } else if key == add_key() || key == spec_blend_key(BlendMode::Add) {
        BlendMode::Add
    } else if key == spec_blend_key(BlendMode::Darken) {
        BlendMode::Darken
    } else if key == spec_blend_key(BlendMode::Lighten) {
        BlendMode::Lighten
    } else if key == spec_blend_key(BlendMode::Difference) {
        BlendMode::Difference
    } else if key == spec_blend_key(BlendMode::ColorDodge) {
        BlendMode::ColorDodge
    } else if key == spec_blend_key(BlendMode::ColorBurn) {
        BlendMode::ColorBurn
    } else {
        BlendMode::Normal
    }
}

fn is_key(key: &[u8], a: u8, b: u8, c: u8, d: u8) -> (r: bool)
    ensures
        r == (key@ == tag(a, b, c, d)),
{
    if key.len() != 4 {
        assert(key@.len() != tag(a, b, c, d).len());
        return false;
    }
    let r = key[0] == a && key[1] == b && key[2] == c && key[3] == d;
    if r {
        assert(key@ =~= tag(a, b, c, d));
    }
    r
}

/// The blend mode for a four-byte PSD key; unknown keys give `Normal` (the
/// key itself is kept in the layer).
pub fn blend_of(key: &[u8]) -> (m: BlendMode)
    ensures
        m == spec_blend_of(key@),
{
    if is_key(key, 0x6d, 0x75, 0x6c, 0x20) {
        BlendMode::Multiply
    } else if is_key(key, 0x73, 0x63, 0x72, 0x6e) {
        BlendMode::Screen
    } else if is_key(key, 0x6f, 0x76, 0x65, 0x72) {
        BlendMode::Overlay
    } else if is_key(key, 0x61, 0x64, 0x64, 0x20) || is_key(key, 0x6c, 0x69, 0x6e, 0x20) {
        BlendMode::Add
    } else if is_key(key, 0x64, 0x61, 0x72, 0x6b) {
        BlendMode::Darken
    } else if is_key(key, 0x6c, 0x69, 0x74, 0x65) {
        BlendMode::Lighten
    } else if is_key(key, 0x64, 0x69, 0x66, 0x66) {
        BlendMode::Difference
    } else if is_key(key, 0x64, 0x69, 0x76, 0x20) {
        BlendMode::ColorDodge
    } else if is_key(key, 0x69, 0x64, 0x69, 0x76) {
        BlendMode::ColorBurn
    } else {
        BlendMode::Normal
    }
}

/// The PSD key for a blend mode.
pub fn blend_key(b: BlendMode) -> (k: [u8; 4])
    ensures
        k@ == spec_blend_key(b),
{
    let k: [u8; 4] = match b {
        BlendMode::Normal => [0x6e, 0x6f, 0x72, 0x6d],
        BlendMode::Multiply => [0x6d, 0x75, 0x6c, 0x20],
        BlendMode::Screen => [0x73, 0x63, 0x72, 0x6e],
        BlendMode::Overlay => [0x6f, 0x76, 0x65, 0x72],
        BlendMode::Add => [0x6c, 0x69, 0x6e, 0x20],
        BlendMode::Darken => [0x64, 0x61, 0x72, 0x6b],
        BlendMode::Lighten => [0x6c, 0x69, 0x74, 0x65],
        BlendMode::Difference => [0x64, 0x69, 0x66, 0x66],
        BlendMode::ColorDodge => [0x64, 0x69, 0x76, 0x20],
        BlendMode::ColorBurn => [0x69, 0x64, 0x69, 0x76],
    };
    assert(k@ =~= spec_blend_key(b));
    k
}

/// Every blend mode survives being written as a key and read back.
pub proof fn lemma_blend_key_round_trip(m: BlendMode)
    ensures
        spec_blend_of(spec_blend_key(m)) == m,
{
    let k = spec_blend_key(m);
    assert(k.len() == 4);
    match m {
        BlendMode::Normal => {
            assert(k[0] != spec_blend_key(BlendMode::Multiply)[0]);
            assert(k[0] != spec_blend_key(BlendMode::Screen)[0]);
            assert(k[0] != spec_blend_key(BlendMode::Overlay)[0]);
            assert(k[0] != add_key()[0]);
            assert(k[0] != spec_blend_key(BlendMode::Add)[0]);
            assert(k[0] != spec_blend_key(BlendMode::Darken)[0]);
            assert(k[0] != spec_blend_key(BlendMode::Lighten)[0]);
            assert(k[0] != spec_blend_key(BlendMode::Difference)[0]);
            assert(k[0] != spec_blend_key(BlendMode::ColorDodge)[0]);
            assert(k[0] != spec_blend_key(BlendMode::ColorBurn)[0]);
        },
        _ => {
            assert(k[0] != spec_blend_key(BlendMode::Multiply)[0] || k[1] != spec_blend_key(
                BlendMode::Multiply,
            )[1] || k =~= spec_blend_key(BlendMode::Multiply));
            assert(k[0] != spec_blend_key(BlendMode::Screen)[0] || k =~= spec_blend_key(
                BlendMode::Screen,
            ));
            assert(k[0] != spec_blend_key(BlendMode::Overlay)[0] || k =~= spec_blend_key(
                BlendMode::Overlay,
            ));
            assert(k[0] != add_key()[0]);
            assert(k[2] != spec_blend_key(BlendMode::Add)[2] || k =~= spec_blend_key(
                BlendMode::Add,
            ));
            assert(k[1] != spec_blend_key(BlendMode::Darken)[1] || k =~= spec_blend_key(
                BlendMode::Darken,
            ));
            assert(k[2] != spec_blend_key(BlendMode::Lighten)[2] || k =~= spec_blend_key(
                BlendMode::Lighten,
            ));
            assert(k[2] != spec_blend_key(BlendMode::Difference)[2] || k =~= spec_blend_key(
                BlendMode::Difference,
            ));
            assert(k[2] != spec_blend_key(BlendMode::ColorDodge)[2] || k[0]
                != spec_blend_key(BlendMode::ColorDodge)[0] || k =~= spec_blend_key(
                BlendMode::ColorDodge,
            ));
            assert(k[0] != spec_blend_key(BlendMode::ColorBurn)[0] || k =~= spec_blend_key(
                BlendMode::ColorBurn,
            ));
        },
    }
}


/// Writes a PSD with one flat RGBA image, compressed with PackBits.
pub fn write(width: usize, height: usize, rgba: &[u8]) -> (out: Vec<u8>)
    requires
        rgba@.len() == width * height * 4,
    ensures
        out@ == spec_write(width as nat, height as nat, rgba@),
{
    let mut out: Vec<u8> = Vec::new();
    write_header(&mut out, width, height, 4);
    push_u32(&mut out, 0);
    push_u32(&mut out, 0);
    push_u32(&mut out, 0);
    write_merged(&mut out, width, height, rgba);
    assert(out@ =~= spec_write(width as nat, height as nat, rgba@));
    out
}

/// Writes a PSD with layers: each gets a frame around its content, its mask,
/// opacity, visibility, blend mode and name; folders become group sections.
/// The merged image of the document comes last, as Photoshop expects.
pub fn write_layers(width: usize, height: usize, composite: &[u8], layers: &[OutLayer]) -> (out: Vec<u8>)
    requires
        composite@.len() == width * height * 4,
        width <= i32::MAX,
        height <= i32::MAX,
        forall|i: int| 0 <= i < layers@.len() && writes_pixels(#[trigger] layers@[i]@) ==> width >= 1 && height >= 1
            && layers@[i].rgba@.len() >= width * height * 4,
    ensures
        out@ == spec_write_layers(
            width as nat,
            height as nat,
            composite@,
            layers@.map_values(|l: OutLayer| out_layer_view(l)),
        ),
{
    let ghost ls = layers@.map_values(|l: OutLayer| out_layer_view(l));
    let mut out: Vec<u8> = Vec::new();
    write_header(&mut out, width, height, 4);
    push_u32(&mut out, 0);
    push_u32(&mut out, 0);
    let recs = records(layers);
    let ghost rv = recs@.map_values(|r: (LayerKind, Option<usize>)| record_view(r));
    proof {
        lemma_records_pixel_ok(ls, 0, None, Seq::empty());
    }
    let mut body: Vec<u8> = Vec::new();
    let mut k: usize = 0;
    while k < recs.len()
        invariant
            ls == layers@.map_values(|l: OutLayer| out_layer_view(l)),
            rv == recs@.map_values(|r: (LayerKind, Option<usize>)| record_view(r)),
            rv == spec_records(ls, 0, None, Seq::empty()),
            pixel_records_ok(ls, rv),
            forall|j: int| 0 <= j < recs@.len() ==> ((#[trigger] recs@[j]).1 matches Some(i) ==> i < layers@.len()),
            width <= i32::MAX,
            height <= i32::MAX,
            forall|i: int| 0 <= i < layers@.len() && writes_pixels(#[trigger] layers@[i]@) ==> width >= 1 && height >= 1
                && layers@[i].rgba@.len() >= width * height * 4,
            k <= recs@.len(),
            body@ == spec_body(width as nat, height as nat, ls, rv, k as int),
        decreases recs.len() - k,
    {
        let (kind, idx) = recs[k];
        assert(rv[k as int] == (kind, opt_index(idx)));
        match (kind, idx) {
            (LayerKind::Pixel, Some(i)) => {
                assert(ls[i as int] == layers@[i as int]@);
                assert(writes_pixels(ls[i as int]));
                pixel_record(&mut body, width, height, &layers[i]);
            },
            _ => {
                group_record(&mut body, width, height, layers, kind, idx);
            },
        }
        k = k + 1;
    }
    if body.len() % 2 == 1 {
        body.push(0);
    }
    let mut lm: Vec<u8> = Vec::new();
    push_u32(&mut lm, (body.len() as u128 + 2) as u32);
    push_u16(&mut lm, recs.len() as i16 as u16);
    push_bytes(&mut lm, body.as_slice());
    push_u32(&mut lm, 0);
    push_u32(&mut lm, 0);
    push_u32(&mut out, lm.len() as u32);
    push_bytes(&mut out, lm.as_slice());
    write_merged(&mut out, width, height, composite);
    out
}

} // verus!
