//! Writing PSD files: a flat image, or layers with masks and folders.
use crate::doc::BlendMode;
use crate::packbits::{packbits, spec_packbits};
use crate::psd::{blend_key, spec_blend_key, tag, LayerKind, OutLayer};
use vstd::prelude::*;
use vstd::string::StrSliceExecFns;

verus! {

/// A 16-bit value, big-endian.
pub open spec fn u16be(v: u16) -> Seq<u8> {
    seq![(v / 256) as u8, (v % 256) as u8]
}

/// A 32-bit value, big-endian.
pub open spec fn u32be(v: u32) -> Seq<u8> {
    seq![(v / 16777216) as u8, (v / 65536 % 256) as u8, (v / 256 % 256) as u8, (v % 256) as u8]
}

/// The file header: signature, version 1, reserved bytes, channel count,
/// size, 8-bit depth and RGB mode.
pub open spec fn spec_header(width: nat, height: nat, channels: u16) -> Seq<u8> {
    tag(0x38, 0x42, 0x50, 0x53) + u16be(1) + Seq::new(6, |i: int| 0u8) + u16be(channels) + u32be(
        height as u32,
    ) + u32be(width as u32) + u16be(8) + u16be(3)
}

/// Row `y` of channel `c` of an RGBA buffer `w` pixels wide.
pub open spec fn channel_row(rgba: Seq<u8>, w: nat, c: int, y: int) -> Seq<u8> {
    Seq::new(w, |x: int| rgba[(y * w + x) * 4 + c])
}

/// Big-endian lengths of the first `n` of the given rows.
pub open spec fn row_lengths(rows: spec_fn(int) -> Seq<u8>, n: int) -> Seq<u8>
    decreases n,
{
    if n <= 0 {
        Seq::empty()
    } else {
        row_lengths(rows, n - 1) + u16be(rows(n - 1).len() as u16)
    }
}

/// The first `n` of the given rows, one after another.
pub open spec fn row_bytes(rows: spec_fn(int) -> Seq<u8>, n: int) -> Seq<u8>
    decreases n,
{
    if n <= 0 {
        Seq::empty()
    } else {
        row_bytes(rows, n - 1) + rows(n - 1)
    }
}

/// PackBits rows of channel `c` of an RGBA buffer.
pub open spec fn packed_channel_rows(rgba: Seq<u8>, w: nat, c: int) -> spec_fn(int) -> Seq<u8> {
    |y: int| spec_packbits(channel_row(rgba, w, c, y))
}

/// Channels `0..k` of the merged image: for each, the row lengths, then the
/// rows.
pub open spec fn merged_channels(rgba: Seq<u8>, w: nat, h: nat, k: int) -> Seq<u8>
    decreases k,
{
    if k <= 0 {
        Seq::empty()
    } else {
        merged_channels(rgba, w, h, k - 1) + row_lengths(packed_channel_rows(rgba, w, k - 1), h as int)
            + row_bytes(packed_channel_rows(rgba, w, k - 1), h as int)
    }
}

/// The merged image section: PackBits compression and four channels.
pub open spec fn spec_merged_section(rgba: Seq<u8>, w: nat, h: nat) -> Seq<u8> {
    u16be(1) + merged_channels(rgba, w, h, 4)
}

/// A PSD with one flat RGBA image and empty colour, resource and layer
/// blocks.
pub open spec fn spec_write(w: nat, h: nat, rgba: Seq<u8>) -> Seq<u8> {
    spec_header(w, h, 4) + u32be(0) + u32be(0) + u32be(0) + spec_merged_section(rgba, w, h)
}

pub(crate) fn push_u16(out: &mut Vec<u8>, v: u16)
    ensures
        final(out)@ == old(out)@ + u16be(v),
{
    out.push((v / 256) as u8);
    out.push((v % 256) as u8);
    assert(final(out)@ =~= old(out)@ + u16be(v));
}

pub(crate) fn push_u32(out: &mut Vec<u8>, v: u32)
    ensures
        final(out)@ == old(out)@ + u32be(v),
{
    out.push((v / 16777216) as u8);
    out.push((v / 65536 % 256) as u8);
    out.push((v / 256 % 256) as u8);
    out.push((v % 256) as u8);
    assert(final(out)@ =~= old(out)@ + u32be(v));
}

pub(crate) fn push_bytes(out: &mut Vec<u8>, b: &[u8])
    ensures
        final(out)@ == old(out)@ + b@,
{
    let mut i: usize = 0;
    while i < b.len()
        invariant
            i <= b.len(),
            out@ == old(out)@ + b@.take(i as int),
        decreases b.len() - i,
    {
        out.push(b[i]);
        i = i + 1;
        assert(out@ =~= old(out)@ + b@.take(i as int));
    }
    assert(b@.take(b.len() as int) =~= b@);
}

pub(crate) fn write_header(out: &mut Vec<u8>, width: usize, height: usize, channels: u16)
    ensures
        final(out)@ == old(out)@ + spec_header(width as nat, height as nat, channels),
{
    out.push(0x38);
    out.push(0x42);
    out.push(0x50);
    out.push(0x53);
    push_u16(out, 1);
    let mut i: usize = 0;
    while i < 6
        invariant
            i <= 6,
            out@ == old(out)@ + tag(0x38, 0x42, 0x50, 0x53) + u16be(1) + Seq::new(
                i as nat,
                |k: int| 0u8,
            ),
        decreases 6 - i,
    {
        out.push(0);
        i = i + 1;
        assert(out@ =~= old(out)@ + tag(0x38, 0x42, 0x50, 0x53) + u16be(1) + Seq::new(
            i as nat,
            |k: int| 0u8,
        ));
    }
    push_u16(out, channels);
    push_u32(out, height as u32);
    push_u32(out, width as u32);
    push_u16(out, 8);
    push_u16(out, 3);
    assert(final(out)@ =~= old(out)@ + spec_header(width as nat, height as nat, channels));
}

/// Appends, for the given packed rows, their lengths and then the rows.
fn push_rows(out: &mut Vec<u8>, rows: &Vec<Vec<u8>>, spec_rows: Ghost<spec_fn(int) -> Seq<u8>>)
    requires
        forall|y: int| 0 <= y < rows.len() ==> (#[trigger] rows@[y])@ == spec_rows@(y),
    ensures
        final(out)@ == old(out)@ + row_lengths(spec_rows@, rows.len() as int) + row_bytes(
            spec_rows@,
            rows.len() as int,
        ),
{
    let mut i: usize = 0;
    while i < rows.len()
        invariant
            i <= rows.len(),
            forall|y: int| 0 <= y < rows.len() ==> (#[trigger] rows@[y])@ == spec_rows@(y),
            out@ == old(out)@ + row_lengths(spec_rows@, i as int),
        decreases rows.len() - i,
    {
        push_u16(out, rows[i].len() as u16);
        i = i + 1;
    }
    let ghost mid = out@;
    let mut i: usize = 0;
    while i < rows.len()
        invariant
            i <= rows.len(),
            forall|y: int| 0 <= y < rows.len() ==> (#[trigger] rows@[y])@ == spec_rows@(y),
            out@ == mid + row_bytes(spec_rows@, i as int),
        decreases rows.len() - i,
    {
        push_bytes(out, rows[i].as_slice());
        i = i + 1;
        assert(out@ =~= mid + row_bytes(spec_rows@, i as int));
    }
    assert(out@ =~= old(out)@ + row_lengths(spec_rows@, rows.len() as int) + row_bytes(
        spec_rows@,
        rows.len() as int,
    ));
}

/// The merged image: PackBits rows of each channel, with the row lengths of
/// a channel in front of its rows, as Photoshop writes them.
pub(crate) fn write_merged(out: &mut Vec<u8>, width: usize, height: usize, rgba: &[u8])
    requires
        rgba@.len() == width * height * 4,
    ensures
        final(out)@ == old(out)@ + spec_merged_section(rgba@, width as nat, height as nat),
{
    push_u16(out, 1);
    let total = rgba.len();
    let mut c: usize = 0;
    while c < 4
        invariant
            total == rgba@.len(),
            c <= 4,
            rgba@.len() == width * height * 4,
            out@ == old(out)@ + u16be(1) + merged_channels(rgba@, width as nat, height as nat, c as int),
        decreases 4 - c,
    {
        let ghost sr = packed_channel_rows(rgba@, width as nat, c as int);
        let mut rows: Vec<Vec<u8>> = Vec::new();
        let mut y: usize = 0;
        while y < height
            invariant
                total == rgba@.len(),
                sr == packed_channel_rows(rgba@, width as nat, c as int),
                c < 4,
                y <= height,
                rgba@.len() == width * height * 4,
                rows@.len() == y,
                forall|k: int| 0 <= k < y ==> (#[trigger] rows@[k])@ == sr(k),
            decreases height - y,
        {
            let mut line: Vec<u8> = Vec::new();
            let mut x: usize = 0;
            while x < width
                invariant
                    total == rgba@.len(),
                    c < 4,
                    y < height,
                    x <= width,
                    rgba@.len() == width * height * 4,
                    line@ =~= channel_row(rgba@, width as nat, c as int, y as int).take(x as int),
                decreases width - x,
            {
                proof {
                    lemma_index_in_bounds(width as int, height as int, x as int, y as int, c as int);
                }
                line.push(rgba[(y * width + x) * 4 + c]);
                x = x + 1;
                assert(line@ =~= channel_row(rgba@, width as nat, c as int, y as int).take(x as int));
            }
            assert(line@ =~= channel_row(rgba@, width as nat, c as int, y as int));
            let packed = packbits(line.as_slice());
            assert(sr(y as int) == spec_packbits(channel_row(rgba@, width as nat, c as int, y as int)));
            rows.push(packed);
            y = y + 1;
        }
        push_rows(out, &rows, Ghost(sr));
        c = c + 1;
        assert(out@ =~= old(out)@ + u16be(1) + merged_channels(rgba@, width as nat, height as nat, c as int));
    }
}

/// The byte index of channel `c` of pixel `(x, y)` lies inside the buffer.
proof fn lemma_index_in_bounds(w: int, h: int, x: int, y: int, c: int)
    requires
        0 <= x < w,
        0 <= y < h,
        0 <= c < 4,
    ensures
        0 <= (y * w + x) * 4 + c < w * h * 4,
        y * w + x < w * h,
{
    assert(y * w + x < w * h) by (nonlinear_arith)
        requires
            0 <= x < w,
            0 <= y < h,
    ;
    assert(0 <= y * w) by (nonlinear_arith)
        requires
            0 <= y,
            0 <= w,
    ;
}



/// What a layer to be written holds.
pub struct OutLayerModel {
    pub name: Seq<char>,
    pub rgba: Seq<u8>,
    pub mask: Option<Seq<u8>>,
    pub opacity: u8,
    pub visible: bool,
    pub blend: BlendMode,
    pub group: Option<Seq<char>>,
    pub group_header: bool,
    pub group_open: bool,
}

pub open spec fn opt_slice_view(m: Option<&[u8]>) -> Option<Seq<u8>> {
    match m {
        Some(s) => Some(s@),
        None => None,
    }
}

pub open spec fn opt_str_view(m: Option<&str>) -> Option<Seq<char>> {
    match m {
        Some(s) => Some(s@),
        None => None,
    }
}

impl<'a> View for OutLayer<'a> {
    type V = OutLayerModel;

    open spec fn view(&self) -> OutLayerModel {
        OutLayerModel {
            name: self.name@,
            rgba: self.rgba@,
            mask: opt_slice_view(self.mask),
            opacity: self.opacity,
            visible: self.visible,
            blend: self.blend,
            group: opt_str_view(self.group),
            group_header: self.group_header,
            group_open: self.group_open,
        }
    }
}

pub open spec fn out_layer_view(l: OutLayer) -> OutLayerModel {
    l@
}

/// Two folder names are the same folder when their UTF-8 bytes are equal.
pub open spec fn same_group(a: Option<Seq<char>>, b: Option<Seq<char>>) -> bool {
    match (a, b) {
        (None, None) => true,
        (Some(x), Some(y)) => vstd::utf8::encode_utf8(x) == vstd::utf8::encode_utf8(y),
        _ => false,
    }
}

/// The layer has at least one pixel that is not fully transparent.
pub open spec fn spec_has_content(rgba: Seq<u8>) -> bool {
    exists|j: int| 0 <= j < rgba.len() / 4 && #[trigger] rgba[4 * j + 3] != 0
}

/// The section kind of a layer: plain, or the header of an open or closed
/// folder.
pub open spec fn layer_kind(l: OutLayerModel) -> LayerKind {
    if l.group_header {
        if l.group_open {
            LayerKind::GroupOpen
        } else {
            LayerKind::GroupClosed
        }
    } else {
        LayerKind::Pixel
    }
}

/// The PSD records for layers `i..`, bottom to top: a folder that starts
/// gets a bounding record first, and a folder header with pixels of its own
/// is written as a plain layer followed by an empty folder record.
pub open spec fn spec_records(
    ls: Seq<OutLayerModel>,
    i: int,
    group: Option<Seq<char>>,
    acc: Seq<(LayerKind, Option<int>)>,
) -> Seq<(LayerKind, Option<int>)>
    decreases ls.len() - i,
{
    if i < 0 || i >= ls.len() {
        acc
    } else {
        let l = ls[i];
        let starts = !same_group(l.group, group);
        let acc1 = if starts && l.group is Some {
            acc.push((LayerKind::Bounding, None))
        } else {
            acc
        };
        let g1 = if starts {
            l.group
        } else {
            group
        };
        let kind = layer_kind(l);
        let acc2 = if kind != LayerKind::Pixel && spec_has_content(l.rgba) {
            acc1.push((LayerKind::Pixel, Some(i)))
        } else {
            acc1
        };
        spec_records(ls, i + 1, g1, acc2.push((kind, Some(i))))
    }
}

/// UTF-16 code units of one character.
pub open spec fn utf16_of(c: char) -> Seq<u16> {
    let v = c as u32;
    if v < 0x10000 {
        seq![v as u16]
    } else {
        seq![(0xD800 + (v - 0x10000) / 1024) as u16, (0xDC00 + (v - 0x10000) % 1024) as u16]
    }
}

/// UTF-16 code units of a string.
pub open spec fn spec_utf16(s: Seq<char>) -> Seq<u16>
    decreases s.len(),
{
    if s.len() == 0 {
        Seq::empty()
    } else {
        spec_utf16(s.drop_last()) + utf16_of(s.last())
    }
}

/// Code units, big-endian.
pub open spec fn units_be(u: Seq<u16>) -> Seq<u8>
    decreases u.len(),
{
    if u.len() == 0 {
        Seq::empty()
    } else {
        units_be(u.drop_last()) + u16be(u.last())
    }
}

/// `n` zero bytes.
pub open spec fn zeros(n: nat) -> Seq<u8> {
    Seq::new(n, |i: int| 0u8)
}

/// The record's name: one length byte and at most 255 UTF-8 bytes, padded
/// with zeros to a multiple of four.
pub open spec fn spec_pascal(name: Seq<char>) -> Seq<u8> {
    let bytes = vstd::utf8::encode_utf8(name);
    let n = if bytes.len() < 255 {
        bytes.len()
    } else {
        255
    };
    let nm = seq![n as u8] + bytes.take(n as int);
    nm + zeros(((4 - nm.len() % 4) % 4) as nat)
}

/// A layer's extra data: the mask block, empty blending ranges, the name,
/// the UTF-16 name block and, for folder records, the section block.
pub open spec fn spec_extra_bytes(name: Seq<char>, section: Option<u32>, mask: Seq<u8>) -> Seq<u8> {
    let units = spec_utf16(name);
    let sect = match section {
        Some(v) => tag(0x6c, 0x73, 0x63, 0x74) + u32be(4) + u32be(v),
        None => Seq::empty(),
    };
    mask + u32be(0) + spec_pascal(name) + tag(0x6c, 0x75, 0x6e, 0x69) + u32be(
        (units.len() * 2 + 4) as u32,
    ) + u32be(units.len() as u32) + units_be(units) + sect
}

/// Rows `y*w..y*w+w` of a plane, PackBits-compressed.
pub open spec fn packed_plane_rows(plane: Seq<u8>, w: nat) -> spec_fn(int) -> Seq<u8> {
    |y: int| spec_packbits(plane.subrange(y * w, y * w + w))
}

/// A plane as PackBits rows: compression, row lengths, rows.
pub open spec fn spec_plane_rows(plane: Seq<u8>, w: nat, h: nat) -> Seq<u8> {
    u16be(1) + row_lengths(packed_plane_rows(plane, w), h as int) + row_bytes(
        packed_plane_rows(plane, w),
        h as int,
    )
}

/// The mask block of a layer; a missing mask, a mask of the wrong size and
/// a mask that hides nothing are written as an empty block.
pub open spec fn spec_mask_bytes(w: nat, h: nat, mask: Option<Seq<u8>>) -> Seq<u8> {
    match mask {
        None => u32be(0),
        Some(m) => if m.len() != w * h || (forall|i: int| 0 <= i < m.len() ==> m[i] == 255) {
            u32be(0)
        } else {
            let data = u32be(0) + u32be(0) + u32be(h as i32 as u32) + u32be(w as i32 as u32) + seq![
                0u8,
                0u8,
            ] + tag(0x38, 0x42, 0x49, 0x4d) + u32be(0) + spec_plane_rows(m, w, h);
            u32be(data.len() as u32) + data
        },
    }
}


/// Grows a frame to hold pixel `(x, y)`.
pub open spec fn rect_step(acc: (int, int, int, int), x: int, y: int) -> (int, int, int, int) {
    (
        if x < acc.0 { x } else { acc.0 },
        if y < acc.1 { y } else { acc.1 },
        if x + 1 > acc.2 { x + 1 } else { acc.2 },
        if y + 1 > acc.3 { y + 1 } else { acc.3 },
    )
}

/// The frame grown over the opaque pixels `x..w` of row `y`.
pub open spec fn rect_row(rgba: Seq<u8>, w: nat, y: int, x: int, acc: (int, int, int, int)) -> (
    int,
    int,
    int,
    int,
)
    decreases w - x,
{
    if x < 0 || x >= w {
        acc
    } else {
        let acc2 = if rgba[(y * w + x) * 4 + 3] != 0 {
            rect_step(acc, x, y)
        } else {
            acc
        };
        rect_row(rgba, w, y, x + 1, acc2)
    }
}

/// The frame grown over the opaque pixels of rows `y..h`.
pub open spec fn rect_rows(rgba: Seq<u8>, w: nat, h: nat, y: int, acc: (int, int, int, int)) -> (
    int,
    int,
    int,
    int,
)
    decreases h - y,
{
    if y < 0 || y >= h {
        acc
    } else {
        rect_rows(rgba, w, h, y + 1, rect_row(rgba, w, y, 0, acc))
    }
}

/// The tight frame `(x0, y0, x1, y1)` around the layer's opaque pixels; a
/// fully transparent layer gets the 1×1 frame at the origin.
pub open spec fn spec_tight_rect(w: nat, h: nat, rgba: Seq<u8>) -> (int, int, int, int) {
    let r = rect_rows(rgba, w, h, 0, (0x7fff_ffff, 0x7fff_ffff, -1, -1));
    if r.2 < 0 {
        (0, 0, 1, 1)
    } else {
        r
    }
}

/// Channel `c` of the part of an RGBA buffer inside a frame.
pub open spec fn crop_plane(
    rgba: Seq<u8>,
    w: nat,
    x0: int,
    y0: int,
    rw: nat,
    rh: nat,
    c: int,
) -> Seq<u8> {
    Seq::new(rw * rh, |k: int| rgba[((y0 + k / (rw as int)) * w + (x0 + k % (rw as int))) * 4 + c])
}

/// The frame of a record: top, left, bottom, right, then four channels.
#[verifier::opaque]
pub open spec fn record_frame(r: (int, int, int, int)) -> Seq<u8> {
    u32be(r.1 as u32) + u32be(r.0 as u32) + u32be(r.3 as u32) + u32be(r.2 as u32) + u16be(4)
}

/// The channel table of a pixel record: alpha, red, green, blue with the
/// lengths of their data.
#[verifier::opaque]
pub open spec fn record_channels(la: nat, lr: nat, lg: nat, lb: nat) -> Seq<u8> {
    u16be(0xffff) + u32be(la as u32) + u16be(0) + u32be(lr as u32) + u16be(1) + u32be(lg as u32)
        + u16be(2) + u32be(lb as u32)
}

/// Signature, blend key, opacity, clipping (never), flags and filler.
#[verifier::opaque]
pub open spec fn record_settings(key: Seq<u8>, opacity: u8, flags: u8) -> Seq<u8> {
    tag(0x38, 0x42, 0x49, 0x4d) + key + seq![opacity, 0u8, flags, 0u8]
}

/// A layer record with pixels: its frame, four channels (alpha first),
/// blending settings, extra data, then the channel data.
pub open spec fn spec_pixel_record(w: nat, h: nat, l: OutLayerModel) -> Seq<u8> {
    let r = spec_tight_rect(w, h, l.rgba);
    let rw = (r.2 - r.0) as nat;
    let rh = (r.3 - r.1) as nat;
    let da = spec_plane_rows(crop_plane(l.rgba, w, r.0, r.1, rw, rh, 3), rw, rh);
    let dr = spec_plane_rows(crop_plane(l.rgba, w, r.0, r.1, rw, rh, 0), rw, rh);
    let dg = spec_plane_rows(crop_plane(l.rgba, w, r.0, r.1, rw, rh, 1), rw, rh);
    let db = spec_plane_rows(crop_plane(l.rgba, w, r.0, r.1, rw, rh, 2), rw, rh);
    let extra = spec_extra_bytes(l.name, None, spec_mask_bytes(w, h, l.mask));
    record_frame(r) + record_channels(da.len(), dr.len(), dg.len(), db.len()) + record_settings(
        spec_blend_key(l.blend),
        l.opacity,
        if l.visible {
            0u8
        } else {
            2u8
        },
    ) + u32be(extra.len() as u32) + extra + da + dr + dg + db
}

/// A folder record (header or bounding marker): no channels, only the
/// blending settings and the extra data with the section kind.
pub open spec fn spec_group_record(
    w: nat,
    h: nat,
    ls: Seq<OutLayerModel>,
    kind: LayerKind,
    layer: Option<int>,
) -> Seq<u8> {
    let name = match layer {
        Some(i) => match ls[i].group {
            Some(g) => g,
            None => ls[i].name,
        },
        None => "Группа"@,
    };
    let head: u32 = if kind == LayerKind::Bounding {
        3
    } else {
        1
    };
    let key = match layer {
        Some(i) => spec_blend_key(ls[i].blend),
        None => spec_blend_key(BlendMode::Normal),
    };
    let op: u8 = match layer {
        Some(i) => ls[i].opacity,
        None => 255,
    };
    let flags: u8 = match layer {
        Some(i) => if ls[i].visible {
            0
        } else {
            2
        },
        None => 2,
    };
    let mask = match layer {
        Some(i) => spec_mask_bytes(w, h, ls[i].mask),
        None => u32be(0),
    };
    let extra = spec_extra_bytes(name, Some(head), mask);
    zeros(16) + u16be(0) + record_settings(key, op, flags) + u32be(extra.len() as u32) + extra
}

/// The bytes of one record.
pub open spec fn spec_record(
    w: nat,
    h: nat,
    ls: Seq<OutLayerModel>,
    rec: (LayerKind, Option<int>),
) -> Seq<u8> {
    match rec {
        (LayerKind::Pixel, Some(i)) => spec_pixel_record(w, h, ls[i]),
        (k, l) => spec_group_record(w, h, ls, k, l),
    }
}

/// The first `n` records, one after another.
pub open spec fn spec_body(
    w: nat,
    h: nat,
    ls: Seq<OutLayerModel>,
    recs: Seq<(LayerKind, Option<int>)>,
    n: int,
) -> Seq<u8>
    decreases n,
{
    if n <= 0 {
        Seq::empty()
    } else {
        spec_body(w, h, ls, recs, n - 1) + spec_record(w, h, ls, recs[n - 1])
    }
}

/// A PSD with layers: header, empty colour and resource blocks, the layer
/// and mask block (records, then an empty global mask and empty extra
/// information) and the merged image.
pub open spec fn spec_write_layers(
    w: nat,
    h: nat,
    composite: Seq<u8>,
    ls: Seq<OutLayerModel>,
) -> Seq<u8> {
    let recs = spec_records(ls, 0, None, Seq::empty());
    let body = spec_body(w, h, ls, recs, recs.len() as int);
    let body2 = if body.len() % 2 == 1 {
        body.push(0)
    } else {
        body
    };
    let info = u32be((body2.len() + 2) as u32) + u16be(recs.len() as i16 as u16) + body2;
    let lm = info + u32be(0) + u32be(0);
    spec_header(w, h, 4) + u32be(0) + u32be(0) + u32be(lm.len() as u32) + lm + spec_merged_section(
        composite,
        w,
        h,
    )
}


pub(crate) fn push_tag(out: &mut Vec<u8>, a: u8, b: u8, c: u8, d: u8)
    ensures
        final(out)@ == old(out)@ + tag(a, b, c, d),
{
    out.push(a);
    out.push(b);
    out.push(c);
    out.push(d);
    assert(final(out)@ =~= old(out)@ + tag(a, b, c, d));
}

/// Whether the layer has a pixel that is not fully transparent.
fn has_content(rgba: &[u8]) -> (r: bool)
    ensures
        r == spec_has_content(rgba@),
{
    let total = rgba.len();
    let n = total / 4;
    let mut j: usize = 0;
    while j < n
        invariant
            total == rgba@.len(),
            n == rgba@.len() / 4,
            j <= n,
            forall|k: int| 0 <= k < j ==> #[trigger] rgba@[4 * k + 3] == 0,
        decreases n - j,
    {
        if rgba[4 * j + 3] != 0 {
            return true;
        }
        j = j + 1;
    }
    false
}

/// The tight frame around the layer's opaque pixels.
fn tight_rect(w: usize, h: usize, rgba: &[u8]) -> (r: (i32, i32, i32, i32))
    requires
        rgba@.len() >= w * h * 4,
        w <= i32::MAX,
        h <= i32::MAX,
    ensures
        (r.0 as int, r.1 as int, r.2 as int, r.3 as int) == spec_tight_rect(w as nat, h as nat, rgba@),
        0 <= r.0 < r.2,
        0 <= r.1 < r.3,
        (w >= 1 && h >= 1) ==> r.2 <= w && r.3 <= h,
{
    let total = rgba.len();
    let mut x0: i32 = i32::MAX;
    let mut y0: i32 = i32::MAX;
    let mut x1: i32 = -1;
    let mut y1: i32 = -1;
    let mut y: usize = 0;
    while y < h
        invariant
            total == rgba@.len(),
            rgba@.len() >= w * h * 4,
            w <= i32::MAX,
            h <= i32::MAX,
            y <= h,
            rect_rows(rgba@, w as nat, h as nat, 0, (0x7fff_ffff, 0x7fff_ffff, -1, -1))
                == rect_rows(rgba@, w as nat, h as nat, y as int, (x0 as int, y0 as int, x1 as int, y1 as int)),
            x1 < 0 ==> x0 == i32::MAX && y0 == i32::MAX && y1 == -1,
            x1 >= 0 ==> 0 <= x0 < x1 <= w && 0 <= y0 < y1 <= y,
        decreases h - y,
    {
        let mut x: usize = 0;
        while x < w
            invariant
                total == rgba@.len(),
                rgba@.len() >= w * h * 4,
                w <= i32::MAX,
                h <= i32::MAX,
                y < h,
                x <= w,
                rect_rows(rgba@, w as nat, h as nat, 0, (0x7fff_ffff, 0x7fff_ffff, -1, -1))
                    == rect_rows(rgba@, w as nat, h as nat, y + 1, rect_row(rgba@, w as nat, y as int, x as int, (x0 as int, y0 as int, x1 as int, y1 as int))),
                x1 < 0 ==> x0 == i32::MAX && y0 == i32::MAX && y1 == -1,
                x1 >= 0 ==> 0 <= x0 < x1 <= w && 0 <= y0 < y1 <= y + 1,
            decreases w - x,
        {
            proof {
                lemma_index_in_bounds(w as int, h as int, x as int, y as int, 3);
            }
            if rgba[(y * w + x) * 4 + 3] != 0 {
                let xi = x as i32;
                let yi = y as i32;
                if xi < x0 {
                    x0 = xi;
                }
                if yi < y0 {
                    y0 = yi;
                }
                if xi + 1 > x1 {
                    x1 = xi + 1;
                }
                if yi + 1 > y1 {
                    y1 = yi + 1;
                }
            }
            x = x + 1;
        }
        y = y + 1;
    }
    if x1 < 0 {
        (0, 0, 1, 1)
    } else {
        (x0, y0, x1, y1)
    }
}


/// UTF-16 code units of a string.
fn encode_utf16(name: &str) -> (units: Vec<u16>)
    ensures
        units@ == spec_utf16(name@),
{
    let n = name.unicode_len();
    let mut units: Vec<u16> = Vec::new();
    let mut i: usize = 0;
    while i < n
        invariant
            n == name@.len(),
            i <= n,
            units@ == spec_utf16(name@.take(i as int)),
        decreases n - i,
    {
        let c = name.get_char(i);
        let v = c as u32;
        let ghost before = units@;
        if v < 0x10000 {
            units.push(v as u16);
        } else {
            units.push((0xD800 + (v - 0x10000) / 1024) as u16);
            units.push((0xDC00 + (v - 0x10000) % 1024) as u16);
        }
        i = i + 1;
        assert(name@.take(i as int).drop_last() =~= name@.take(i - 1));
        assert(name@.take(i as int).last() == c);
        assert(units@ =~= before + utf16_of(c));
    }
    assert(name@.take(n as int) =~= name@);
    units
}

proof fn lemma_units_be_push(u: Seq<u16>, x: u16)
    ensures
        units_be(u.push(x)) == units_be(u) + u16be(x),
{
    assert(u.push(x).drop_last() =~= u);
}

/// A layer's extra data: mask block, empty blending ranges, name, UTF-16
/// name block and, for folder records, the section kind.
fn extra_bytes(name: &str, section: Option<u32>, mask: Vec<u8>) -> (out: Vec<u8>)
    ensures
        out@ == spec_extra_bytes(name@, section, mask@),
{
    let mut out: Vec<u8> = Vec::new();
    push_bytes(&mut out, mask.as_slice());
    push_u32(&mut out, 0);
    let ghost p1 = out@;
    let bytes = name.as_bytes();
    let n = if bytes.len() < 255 {
        bytes.len()
    } else {
        255
    };
    out.push(n as u8);
    push_bytes(&mut out, &bytes[0..n]);
    let pad = (4 - (n + 1) % 4) % 4;
    let mut k: usize = 0;
    while k < pad
        invariant
            k <= pad,
            pad < 4,
            out@ == p1 + seq![n as u8] + bytes@.take(n as int) + zeros(k as nat),
        decreases pad - k,
    {
        out.push(0);
        k = k + 1;
        assert(out@ =~= p1 + seq![n as u8] + bytes@.take(n as int) + zeros(k as nat));
    }
    let ghost nm = seq![n as u8] + bytes@.take(n as int);
    assert(nm.len() == n + 1);
    assert(out@ =~= p1 + spec_pascal(name@));
    let units = encode_utf16(name);
    push_tag(&mut out, 0x6c, 0x75, 0x6e, 0x69);
    push_u32(&mut out, (units.len() as u128 * 2 + 4) as u32);
    push_u32(&mut out, units.len() as u32);
    let ghost p2 = out@;
    let mut i: usize = 0;
    while i < units.len()
        invariant
            i <= units.len(),
            out@ == p2 + units_be(units@.take(i as int)),
        decreases units.len() - i,
    {
        proof {
            lemma_units_be_push(units@.take(i as int), units@[i as int]);
            assert(units@.take(i as int).push(units@[i as int]) =~= units@.take(i + 1));
        }
        push_u16(&mut out, units[i]);
        i = i + 1;
    }
    assert(units@.take(units.len() as int) =~= units@);
    match section {
        Some(v) => {
            push_tag(&mut out, 0x6c, 0x73, 0x63, 0x74);
            push_u32(&mut out, 4);
            push_u32(&mut out, v);
        },
        None => {},
    }
    assert(out@ =~= spec_extra_bytes(name@, section, mask@));
    out
}

proof fn lemma_row_in_plane(w: int, h: int, y: int)
    requires
        0 <= y < h,
        0 <= w,
    ensures
        0 <= y * w,
        y * w + w <= w * h,
{
    assert(y * w + w <= w * h) by (nonlinear_arith)
        requires
            0 <= y < h,
            0 <= w,
    ;
    assert(0 <= y * w) by (nonlinear_arith)
        requires
            0 <= y,
            0 <= w,
    ;
}

/// A plane as PackBits rows: compression, row lengths, rows.
fn plane_rows(plane: &[u8], w: usize, h: usize) -> (out: Vec<u8>)
    requires
        plane@.len() == w * h,
    ensures
        out@ == spec_plane_rows(plane@, w as nat, h as nat),
{
    let total = plane.len();
    let ghost sr = packed_plane_rows(plane@, w as nat);
    let mut rows: Vec<Vec<u8>> = Vec::new();
    let mut y: usize = 0;
    while y < h
        invariant
            total == plane@.len(),
            plane@.len() == w * h,
            sr == packed_plane_rows(plane@, w as nat),
            y <= h,
            rows@.len() == y,
            forall|k: int| 0 <= k < y ==> (#[trigger] rows@[k])@ == sr(k),
        decreases h - y,
    {
        proof {
            lemma_row_in_plane(w as int, h as int, y as int);
        }
        let packed = packbits(&plane[y * w..y * w + w]);
        assert(sr(y as int) == spec_packbits(plane@.subrange(y * w, y * w + w)));
        rows.push(packed);
        y = y + 1;
    }
    let mut out: Vec<u8> = Vec::new();
    push_u16(&mut out, 1);
    push_rows(&mut out, &rows, Ghost(sr));
    assert(out@ =~= spec_plane_rows(plane@, w as nat, h as nat));
    out
}

/// The mask block of a mask of the canvas size that is not all open.
proof fn lemma_mask_bytes_written(w: nat, h: nat, m: Seq<u8>, expect: Seq<u8>)
    requires
        m.len() == w * h,
        !(forall|k: int| 0 <= k < m.len() ==> m[k] == 255),
        expect == u32be(0) + u32be(0) + u32be(h as i32 as u32) + u32be(w as i32 as u32) + seq![0u8, 0u8] + tag(
            0x38,
            0x42,
            0x49,
            0x4d,
        ) + u32be(0) + spec_plane_rows(m, w, h),
    ensures
        spec_mask_bytes(w, h, Some(m)) == u32be(expect.len() as u32) + expect,
{
}

/// The mask block of a layer.
fn mask_bytes(w: usize, h: usize, mask: Option<&[u8]>) -> (out: Vec<u8>)
    ensures
        out@ == spec_mask_bytes(w as nat, h as nat, opt_slice_view(mask)),
{
    let mut out: Vec<u8> = Vec::new();
    let m = match mask {
        None => {
            push_u32(&mut out, 0);
            return out;
        },
        Some(m) => m,
    };
    let ml = m.len();
    let fits = match w.checked_mul(h) {
        Some(n) => ml == n,
        None => {
            assert(ml < w * h);
            false
        },
    };
    if !fits {
        push_u32(&mut out, 0);
        return out;
    }
    let mut all_open = true;
    let mut i: usize = 0;
    while i < m.len()
        invariant
            i <= m@.len(),
            all_open == (forall|k: int| 0 <= k < i ==> m@[k] == 255),
        decreases m.len() - i,
    {
        if m[i] != 255 {
            all_open = false;
        }
        i = i + 1;
    }
    if all_open {
        push_u32(&mut out, 0);
        return out;
    }
    let mut data: Vec<u8> = Vec::new();
    push_u32(&mut data, 0);
    push_u32(&mut data, 0);
    push_u32(&mut data, h as i32 as u32);
    push_u32(&mut data, w as i32 as u32);
    data.push(0);
    data.push(0);
    push_tag(&mut data, 0x38, 0x42, 0x49, 0x4d);
    push_u32(&mut data, 0);
    let rows = plane_rows(m, w, h);
    push_bytes(&mut data, rows.as_slice());
    let ghost expect = u32be(0) + u32be(0) + u32be(h as i32 as u32) + u32be(w as i32 as u32) + seq![0u8, 0u8]
        + tag(0x38, 0x42, 0x49, 0x4d) + u32be(0) + spec_plane_rows(m@, w as nat, h as nat);
    assert(data@ =~= expect);
    proof {
        lemma_mask_bytes_written(w as nat, h as nat, m@, expect);
    }
    push_u32(&mut out, data.len() as u32);
    push_bytes(&mut out, data.as_slice());
    assert(out@ =~= u32be(expect.len() as u32) + expect);
    assert(opt_slice_view(mask) == Some(m@));
    out
}


/// Channel `c` of the part of an RGBA buffer inside a frame.
fn crop(rgba: &[u8], w: usize, h: usize, x0: usize, y0: usize, rw: usize, rh: usize, c: usize) -> (out: Vec<u8>)
    requires
        rgba@.len() >= w * h * 4,
        x0 + rw <= w,
        y0 + rh <= h,
        rw >= 1,
        c < 4,
    ensures
        out@ == crop_plane(rgba@, w as nat, x0 as int, y0 as int, rw as nat, rh as nat, c as int),
{
    let total = rgba.len();
    let mut out: Vec<u8> = Vec::new();
    let mut y: usize = 0;
    while y < rh
        invariant
            total == rgba@.len(),
            rgba@.len() >= w * h * 4,
            x0 + rw <= w,
            y0 + rh <= h,
            rw >= 1,
            c < 4,
            y <= rh,
            out@.len() == y * rw,
            forall|k: int| 0 <= k < out@.len() ==> #[trigger] out@[k] == crop_plane(rgba@, w as nat, x0 as int, y0 as int, rw as nat, rh as nat, c as int)[k],
        decreases rh - y,
    {
        let mut x: usize = 0;
        while x < rw
            invariant
                total == rgba@.len(),
                rgba@.len() >= w * h * 4,
                x0 + rw <= w,
                y0 + rh <= h,
                rw >= 1,
                c < 4,
                y < rh,
                x <= rw,
                out@.len() == y * rw + x,
                forall|k: int| 0 <= k < out@.len() ==> #[trigger] out@[k] == crop_plane(rgba@, w as nat, x0 as int, y0 as int, rw as nat, rh as nat, c as int)[k],
            decreases rw - x,
        {
            proof {
                lemma_index_in_bounds(w as int, h as int, (x0 + x) as int, (y0 + y) as int, c as int);
                vstd::arithmetic::div_mod::lemma_fundamental_div_mod_converse(
                    (y * rw + x) as int,
                    rw as int,
                    y as int,
                    x as int,
                );
                assert(y * rw + x < rw * rh) by (nonlinear_arith)
                    requires
                        y < rh,
                        x < rw,
                ;
            }
            out.push(rgba[((y0 + y) * w + (x0 + x)) * 4 + c]);
            x = x + 1;
        }
        y = y + 1;
        assert(y * rw == (y - 1) * rw + rw) by (nonlinear_arith);
    }
    assert(rh * rw == rw * rh) by (nonlinear_arith);
    assert(out@ =~= crop_plane(rgba@, w as nat, x0 as int, y0 as int, rw as nat, rh as nat, c as int));
    out
}

fn push_frame(out: &mut Vec<u8>, x0: i32, y0: i32, x1: i32, y1: i32)
    ensures
        final(out)@ == old(out)@ + record_frame((x0 as int, y0 as int, x1 as int, y1 as int)),
{
    reveal(record_frame);
    let ghost o = out@;
    push_u32(out, y0 as u32);
    push_u32(out, x0 as u32);
    push_u32(out, y1 as u32);
    push_u32(out, x1 as u32);
    push_u16(out, 4);
    assert(out@ =~= o + record_frame((x0 as int, y0 as int, x1 as int, y1 as int)));
}

fn push_channels(out: &mut Vec<u8>, la: usize, lr: usize, lg: usize, lb: usize)
    ensures
        final(out)@ == old(out)@ + record_channels(la as nat, lr as nat, lg as nat, lb as nat),
{
    reveal(record_channels);
    let ghost o = out@;
    push_u16(out, 0xffff);
    push_u32(out, la as u32);
    push_u16(out, 0);
    push_u32(out, lr as u32);
    push_u16(out, 1);
    push_u32(out, lg as u32);
    push_u16(out, 2);
    push_u32(out, lb as u32);
    assert(out@ =~= o + record_channels(la as nat, lr as nat, lg as nat, lb as nat));
}

fn push_settings(out: &mut Vec<u8>, key: &[u8; 4], opacity: u8, flags: u8)
    ensures
        final(out)@ == old(out)@ + record_settings(key@, opacity, flags),
{
    reveal(record_settings);
    let ghost o = out@;
    push_tag(out, 0x38, 0x42, 0x49, 0x4d);
    push_bytes(out, key);
    out.push(opacity);
    out.push(0);
    out.push(flags);
    out.push(0);
    assert(out@ =~= o + record_settings(key@, opacity, flags));
}

/// A layer record with pixels, followed by its channel data.
pub(crate) fn pixel_record(out: &mut Vec<u8>, w: usize, h: usize, l: &OutLayer)
    requires
        w >= 1,
        h >= 1,
        w <= i32::MAX,
        h <= i32::MAX,
        l.rgba@.len() >= w * h * 4,
    ensures
        final(out)@ == old(out)@ + spec_pixel_record(w as nat, h as nat, l@),
{
    let (x0, y0, x1, y1) = tight_rect(w, h, l.rgba);
    let rw = (x1 - x0) as usize;
    let rh = (y1 - y0) as usize;
    let ca = crop(l.rgba, w, h, x0 as usize, y0 as usize, rw, rh, 3);
    let cr = crop(l.rgba, w, h, x0 as usize, y0 as usize, rw, rh, 0);
    let cg = crop(l.rgba, w, h, x0 as usize, y0 as usize, rw, rh, 1);
    let cb = crop(l.rgba, w, h, x0 as usize, y0 as usize, rw, rh, 2);
    assert(rw * rh <= w * h) by (nonlinear_arith)
        requires
            rw <= w,
            rh <= h,
    ;
    let da = plane_rows(ca.as_slice(), rw, rh);
    let dr = plane_rows(cr.as_slice(), rw, rh);
    let dg = plane_rows(cg.as_slice(), rw, rh);
    let db = plane_rows(cb.as_slice(), rw, rh);
    let mut rec: Vec<u8> = Vec::new();
    push_frame(&mut rec, x0, y0, x1, y1);
    assert(Seq::<u8>::empty() + record_frame((x0 as int, y0 as int, x1 as int, y1 as int)) =~= record_frame(
        (x0 as int, y0 as int, x1 as int, y1 as int),
    ));
    push_channels(&mut rec, da.len(), dr.len(), dg.len(), db.len());
    let key = blend_key(l.blend);
    push_settings(&mut rec, &key, l.opacity, if l.visible {
        0
    } else {
        2
    });
    let extra = extra_bytes(l.name, None, mask_bytes(w, h, l.mask));
    push_u32(&mut rec, extra.len() as u32);
    push_bytes(&mut rec, extra.as_slice());
    push_bytes(&mut rec, da.as_slice());
    push_bytes(&mut rec, dr.as_slice());
    push_bytes(&mut rec, dg.as_slice());
    push_bytes(&mut rec, db.as_slice());
    assert(rec@ == spec_pixel_record(w as nat, h as nat, l@));
    push_bytes(out, rec.as_slice());
}


pub open spec fn opt_index(o: Option<usize>) -> Option<int> {
    match o {
        Some(i) => Some(i as int),
        None => None,
    }
}

pub open spec fn record_view(r: (LayerKind, Option<usize>)) -> (LayerKind, Option<int>) {
    (r.0, opt_index(r.1))
}

/// A folder record: no channels, blending settings and the extra data with
/// the section kind.
pub(crate) fn group_record(out: &mut Vec<u8>, w: usize, h: usize, layers: &[OutLayer], kind: LayerKind, idx: Option<usize>)
    requires
        idx matches Some(i) ==> i < layers@.len(),
    ensures
        final(out)@ == old(out)@ + spec_group_record(
            w as nat,
            h as nat,
            layers@.map_values(|l: OutLayer| out_layer_view(l)),
            kind,
            opt_index(idx),
        ),
{
    let ghost ls = layers@.map_values(|l: OutLayer| out_layer_view(l));
    let name: &str = match idx {
        Some(i) => match layers[i].group {
            Some(g) => g,
            None => layers[i].name,
        },
        None => "Группа",
    };
    let head: u32 = if kind == LayerKind::Bounding {
        3
    } else {
        1
    };
    let (key, op, flags, mask) = match idx {
        Some(i) => (
            blend_key(layers[i].blend),
            layers[i].opacity,
            if layers[i].visible {
                0u8
            } else {
                2u8
            },
            mask_bytes(w, h, layers[i].mask),
        ),
        None => {
            let mut m: Vec<u8> = Vec::new();
            push_u32(&mut m, 0);
            (blend_key(BlendMode::Normal), 255u8, 2u8, m)
        },
    };
    proof {
        if let Some(i) = idx {
            assert(ls[i as int] == layers@[i as int]@);
        }
    }
    let extra = extra_bytes(name, Some(head), mask);
    let mut rec: Vec<u8> = Vec::new();
    let mut k: usize = 0;
    while k < 16
        invariant
            k <= 16,
            rec@ == zeros(k as nat),
        decreases 16 - k,
    {
        rec.push(0);
        k = k + 1;
        assert(rec@ =~= zeros(k as nat));
    }
    push_u16(&mut rec, 0);
    push_settings(&mut rec, &key, op, flags);
    push_u32(&mut rec, extra.len() as u32);
    push_bytes(&mut rec, extra.as_slice());
    assert(rec@ == spec_group_record(w as nat, h as nat, ls, kind, opt_index(idx)));
    push_bytes(out, rec.as_slice());
}

/// Whether two strings have the same UTF-8 bytes.
fn same_str(a: &str, b: &str) -> (r: bool)
    ensures
        r == (vstd::utf8::encode_utf8(a@) == vstd::utf8::encode_utf8(b@)),
{
    let x = a.as_bytes();
    let y = b.as_bytes();
    assert(x@ == vstd::utf8::encode_utf8(a@));
    assert(y@ == vstd::utf8::encode_utf8(b@));
    if x.len() != y.len() {
        return false;
    }
    let mut i: usize = 0;
    while i < x.len()
        invariant
            x@ == vstd::utf8::encode_utf8(a@),
            y@ == vstd::utf8::encode_utf8(b@),
            x@.len() == y@.len(),
            i <= x@.len(),
            forall|k: int| 0 <= k < i ==> x@[k] == y@[k],
        decreases x.len() - i,
    {
        if x[i] != y[i] {
            assert(x@[i as int] != y@[i as int]);
            assert(x@ != y@);
            return false;
        }
        i = i + 1;
    }
    assert(x@ =~= y@);
    true
}

/// Whether two folder names name the same folder.
fn same_folder(a: Option<&str>, b: Option<&str>) -> (r: bool)
    ensures
        r == same_group(opt_str_view(a), opt_str_view(b)),
{
    match (a, b) {
        (None, None) => true,
        (Some(x), Some(y)) => same_str(x, y),
        _ => false,
    }
}

/// The records to write, bottom to top.
pub(crate) fn records(layers: &[OutLayer]) -> (recs: Vec<(LayerKind, Option<usize>)>)
    ensures
        recs@.map_values(|r: (LayerKind, Option<usize>)| record_view(r)) == spec_records(
            layers@.map_values(|l: OutLayer| out_layer_view(l)),
            0,
            None,
            Seq::empty(),
        ),
        forall|k: int| 0 <= k < recs@.len() ==> ((#[trigger] recs@[k]).1 matches Some(i) ==> i < layers@.len()),
{
    let ghost ls = layers@.map_values(|l: OutLayer| out_layer_view(l));
    let mut recs: Vec<(LayerKind, Option<usize>)> = Vec::new();
    let mut group: Option<&str> = None;
    let mut i: usize = 0;
    assert(recs@.map_values(|r: (LayerKind, Option<usize>)| record_view(r)) =~= Seq::<(LayerKind, Option<int>)>::empty());
    while i < layers.len()
        invariant
            ls == layers@.map_values(|l: OutLayer| out_layer_view(l)),
            i <= layers@.len(),
            spec_records(ls, 0, None, Seq::empty()) == spec_records(ls, i as int, opt_str_view(group),
                recs@.map_values(|r: (LayerKind, Option<usize>)| record_view(r))),
            forall|k: int| 0 <= k < recs@.len() ==> ((#[trigger] recs@[k]).1 matches Some(j) ==> j < layers@.len()),
        decreases layers.len() - i,
    {
        let l = &layers[i];
        let ghost acc0 = recs@.map_values(|r: (LayerKind, Option<usize>)| record_view(r));
        let ghost g0 = opt_str_view(group);
        assert(ls[i as int] == l@);
        if !same_folder(l.group, group) {
            if l.group.is_some() {
                recs.push((LayerKind::Bounding, None));
                assert(recs@.map_values(|r: (LayerKind, Option<usize>)| record_view(r)) =~= acc0.push(
                    (LayerKind::Bounding, None),
                ));
            }
            group = l.group;
        }
        let ghost acc1 = recs@.map_values(|r: (LayerKind, Option<usize>)| record_view(r));
        let kind = if l.group_header {
            if l.group_open {
                LayerKind::GroupOpen
            } else {
                LayerKind::GroupClosed
            }
        } else {
            LayerKind::Pixel
        };
        if kind != LayerKind::Pixel && has_content(l.rgba) {
            recs.push((LayerKind::Pixel, Some(i)));
            assert(recs@.map_values(|r: (LayerKind, Option<usize>)| record_view(r)) =~= acc1.push(
                (LayerKind::Pixel, Some(i as int)),
            ));
        }
        let ghost acc2 = recs@.map_values(|r: (LayerKind, Option<usize>)| record_view(r));
        recs.push((kind, Some(i)));
        assert(recs@.map_values(|r: (LayerKind, Option<usize>)| record_view(r)) =~= acc2.push(
            (kind, Some(i as int)),
        ));
        assert(kind == layer_kind(ls[i as int]));
        i = i + 1;
    }
    recs
}


/// Layers that are written with their pixels: plain layers, and folder
/// headers that have pixels of their own.
pub open spec fn writes_pixels(l: OutLayerModel) -> bool {
    !l.group_header || spec_has_content(l.rgba)
}


pub open spec fn pixel_records_ok(ls: Seq<OutLayerModel>, recs: Seq<(LayerKind, Option<int>)>) -> bool {
    forall|k: int|
        0 <= k < recs.len() ==> (#[trigger] recs[k] matches (LayerKind::Pixel, Some(j)) ==> 0 <= j
            < ls.len() && writes_pixels(ls[j]))
}

/// Only plain layers and folder headers with content get a pixel record.
pub(crate) proof fn lemma_records_pixel_ok(
    ls: Seq<OutLayerModel>,
    i: int,
    g: Option<Seq<char>>,
    acc: Seq<(LayerKind, Option<int>)>,
)
    requires
        0 <= i,
        pixel_records_ok(ls, acc),
    ensures
        pixel_records_ok(ls, spec_records(ls, i, g, acc)),
    decreases ls.len() - i,
{
    if i < ls.len() {
        let l = ls[i];
        let starts = !same_group(l.group, g);
        let acc1 = if starts && l.group is Some {
            acc.push((LayerKind::Bounding, None))
        } else {
            acc
        };
        let g1 = if starts {
            l.group
        } else {
            g
        };
        let kind = layer_kind(l);
        let acc2 = if kind != LayerKind::Pixel && spec_has_content(l.rgba) {
            acc1.push((LayerKind::Pixel, Some(i)))
        } else {
            acc1
        };
        let acc3 = acc2.push((kind, Some(i)));
        assert(pixel_records_ok(ls, acc1));
        assert(pixel_records_ok(ls, acc2));
        assert(pixel_records_ok(ls, acc3)) by {
            assert forall|k: int| 0 <= k < acc3.len() implies (#[trigger] acc3[k] matches (
                LayerKind::Pixel,
                Some(j),
            ) ==> 0 <= j < ls.len() && writes_pixels(ls[j])) by {
                if k < acc2.len() {
                    assert(acc3[k] == acc2[k]);
                }
            }
        }
        lemma_records_pixel_ok(ls, i + 1, g1, acc3);
    }
}

} // verus!
