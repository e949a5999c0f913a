//! Reading PSD files.
//!
//! Every step of the reader has a spec function over the file's bytes and a
//! position in them; the spec of the whole file is `spec_read_file`.
use crate::packbits::{spec_unpackbits, unpackbits};
use crate::psd::{
    spec_blend_of, tag, FileModel, ImageModel, PsdImage, LayerKind, LayerModel, MaskModel, PsdError, MAX_SIDE, PsdMask, mask_view, plane_view, PsdLayer, PsdFile, layer_view,
};
use vstd::prelude::*;

verus! {

/// Big-endian unsigned 16-bit value at `p`.
pub open spec fn be16(b: Seq<u8>, p: int) -> int {
    b[p] as int * 256 + b[p + 1] as int
}

/// Big-endian unsigned 32-bit value at `p`.
pub open spec fn be32(b: Seq<u8>, p: int) -> int {
    b[p] as int * 16777216 + b[p + 1] as int * 65536 + b[p + 2] as int * 256 + b[p + 3] as int
}

/// Big-endian signed 16-bit value at `p`.
pub open spec fn sbe16(b: Seq<u8>, p: int) -> int {
    if be16(b, p) >= 32768 {
        be16(b, p) - 65536
    } else {
        be16(b, p)
    }
}

/// Big-endian signed 32-bit value at `p`.
pub open spec fn sbe32(b: Seq<u8>, p: int) -> int {
    if be32(b, p) >= 0x8000_0000 {
        be32(b, p) - 0x1_0000_0000
    } else {
        be32(b, p)
    }
}

/// The side of a frame from its two edges; a reversed frame is empty.
pub open spec fn side(lo: int, hi: int) -> nat {
    if hi > lo {
        (hi - lo) as nat
    } else {
        0
    }
}

/// Bytes read as Latin-1 characters, as layer names in the record are.
pub open spec fn latin1(s: Seq<u8>) -> Seq<char> {
    s.map_values(|c: u8| c as char)
}

/// Pairs of bytes read as big-endian UTF-16 code units.
pub open spec fn utf16_units(s: Seq<u8>) -> Seq<u16> {
    Seq::new(s.len() / 2, |i: int| (s[2 * i] as int * 256 + s[2 * i + 1] as int) as u16)
}

/// A high (leading) surrogate code unit.
pub open spec fn is_high_surrogate(u: u16) -> bool {
    0xD800 <= u < 0xDC00
}

/// A low (trailing) surrogate code unit.
pub open spec fn is_low_surrogate(u: u16) -> bool {
    0xDC00 <= u < 0xE000
}

/// UTF-16 decoding that replaces every unpaired surrogate with U+FFFD, as
/// `String::from_utf16_lossy` documents: a high surrogate followed by a low
/// one is one character, any other surrogate is U+FFFD, and every other
/// unit is the character of its value.
pub open spec fn utf16_lossy(units: Seq<u16>) -> Seq<char>
    decreases units.len(),
{
    if units.len() == 0 {
        Seq::empty()
    } else if units.len() >= 2 && is_high_surrogate(units[0]) && is_low_surrogate(units[1]) {
        seq![(0x10000 + (units[0] - 0xD800) * 1024 + (units[1] - 0xDC00)) as char] + utf16_lossy(
            units.subrange(2, units.len() as int),
        )
    } else if is_high_surrogate(units[0]) || is_low_surrogate(units[0]) {
        seq!['\u{FFFD}'] + utf16_lossy(units.drop_first())
    } else {
        seq![units[0] as char] + utf16_lossy(units.drop_first())
    }
}

/// A plane of `w`×`h` bytes at `p`: raw (`comp` 0) or PackBits rows with
/// their lengths in front (`comp` 1).
pub open spec fn spec_read_plane(b: Seq<u8>, p: int, w: int, h: int, comp: int) -> Result<
    (Seq<u8>, int),
    PsdError,
> {
    if w * h > usize::MAX {
        Err(PsdError::Truncated)
    } else if comp == 0 {
        if p + w * h > b.len() {
            Err(PsdError::Truncated)
        } else {
            Ok((b.subrange(p, p + w * h), p + w * h))
        }
    } else if comp == 1 {
        if p + 2 * h > b.len() {
            Err(PsdError::Truncated)
        } else {
            spec_read_rows(b, p + 2 * h, p, w, h, 0, Seq::empty())
        }
    } else {
        Err(PsdError::Compression(comp as u16))
    }
}

/// Rows `k..h` of a PackBits plane: data at `q`, row lengths at `cp`.
pub open spec fn spec_read_rows(
    b: Seq<u8>,
    q: int,
    cp: int,
    w: int,
    h: int,
    k: int,
    acc: Seq<u8>,
) -> Result<(Seq<u8>, int), PsdError>
    decreases h - k,
{
    if k >= h {
        Ok((acc, q))
    } else {
        let len = be16(b, cp + 2 * k);
        if q + len > b.len() {
            Err(PsdError::RowPastEnd)
        } else {
            match spec_unpackbits(b.subrange(q, q + len), w as nat) {
                None => Err(PsdError::Rle),
                Some(row) => spec_read_rows(b, q + len, cp, w, h, k + 1, acc + row),
            }
        }
    }
}

/// `n` planes one after another, all with compression `comp`.
pub open spec fn spec_read_planes(
    b: Seq<u8>,
    p: int,
    n: int,
    w: int,
    h: int,
    comp: int,
    acc: Seq<Seq<u8>>,
) -> Result<(Seq<Seq<u8>>, int), PsdError>
    decreases n - acc.len(),
{
    if acc.len() >= n {
        Ok((acc, p))
    } else {
        match spec_read_plane(b, p, w, h, comp) {
            Err(e) => Err(e),
            Ok((d, q)) => spec_read_planes(b, q, n, w, h, comp, acc.push(d)),
        }
    }
}

/// RGBA pixels from channel planes; without a fourth plane alpha is 255.
pub open spec fn merge_planes(planes: Seq<Seq<u8>>, channels: int, n: int) -> Seq<u8> {
    Seq::new(
        (4 * n) as nat,
        |k: int|
            if k % 4 < 3 {
                planes[k % 4][k / 4]
            } else if channels == 4 {
                planes[3][k / 4]
            } else {
                255u8
            },
    )
}

/// The merged image at the end of the file.
pub open spec fn spec_read_merged(b: Seq<u8>, p: int, channels: int, w: int, h: int) -> Result<
    ImageModel,
    PsdError,
> {
    if p + 2 > b.len() {
        Err(PsdError::Truncated)
    } else {
        match spec_read_planes(b, p + 2, channels, w, h, be16(b, p), Seq::empty()) {
            Err(e) => Err(e),
            Ok((planes, _)) => Ok(
                ImageModel {
                    width: w as nat,
                    height: h as nat,
                    pixels: merge_planes(planes, channels, w * h),
                },
            ),
        }
    }
}

/// A length-prefixed name padded to a multiple of four bytes.
pub open spec fn spec_read_pascal(b: Seq<u8>, p: int) -> Result<(Seq<char>, int), PsdError> {
    if p + 1 > b.len() {
        Err(PsdError::Truncated)
    } else {
        let n = b[p] as int;
        let pad = (4 - (n + 1) % 4) % 4;
        if p + 1 + n > b.len() || p + 1 + n + pad > b.len() {
            Err(PsdError::Truncated)
        } else {
            Ok((latin1(b.subrange(p + 1, p + 1 + n)), p + 1 + n + pad))
        }
    }
}

/// The tagged blocks of a layer's extra data from `p` to `xe`: a `luni`
/// block replaces the name, an `lsct` block sets the section kind; the scan
/// stops at an empty or oversized block.
pub open spec fn spec_read_extra(
    b: Seq<u8>,
    p: int,
    xe: int,
    name: Seq<char>,
    kind: LayerKind,
) -> (Seq<char>, LayerKind)
    decreases xe + 4 - p,
{
    if p < 0 || p + 12 > xe {
        (name, kind)
    } else {
        let key = b.subrange(p, p + 4);
        let len = be32(b, p + 4);
        let q = p + 8;
        if len == 0 || len > xe - q {
            (name, kind)
        } else if key == tag(0x6c, 0x75, 0x6e, 0x69) {
            // "luni"
            let nchars = be32(b, q);
            let q2 = q + 4;
            if len >= 4 && nchars * 2 <= len - 4 {
                spec_read_extra(
                    b,
                    q2 + 2 * nchars,
                    xe,
                    utf16_lossy(utf16_units(b.subrange(q2, q2 + 2 * nchars))),
                    kind,
                )
            } else {
                spec_read_extra(b, q2 + len, xe, name, kind)
            }
        } else if key == tag(0x6c, 0x73, 0x63, 0x74) {
            // "lsct"
            let v = be32(b, q);
            let k2 = if v == 1 {
                LayerKind::GroupOpen
            } else if v == 2 {
                LayerKind::GroupClosed
            } else if v == 3 {
                LayerKind::Bounding
            } else {
                LayerKind::Pixel
            };
            spec_read_extra(b, q + 4 + (if len >= 4 { len - 4 } else { 0 }), xe, name, k2)
        } else {
            spec_read_extra(b, q + len, xe, name, kind)
        }
    }
}

/// A layer mask record at `p`.
pub open spec fn spec_read_mask(b: Seq<u8>, p: int) -> Result<(Option<MaskModel>, int), PsdError> {
    if p + 4 > b.len() {
        Err(PsdError::Truncated)
    } else {
        let mlen = be32(b, p);
        let q = p + 4;
        let end = q + mlen;
        if mlen == 0 || end > b.len() {
            Ok((None, q))
        } else if q + 18 > b.len() {
            Err(PsdError::Truncated)
        } else {
            let top = sbe32(b, q);
            let left = sbe32(b, q + 4);
            let bottom = sbe32(b, q + 8);
            let right = sbe32(b, q + 12);
            let flags = b[q + 17];
            let w = side(left, right);
            let h = side(top, bottom);
            let s = q + 18;
            let s2 = if s + 8 <= end && b.subrange(s, s + 4) == tag(0x38, 0x42, 0x49, 0x4d) {
                // "8BIM" and a block of parameters
                let params = be32(b, s + 4);
                let t = s + 8;
                if params < end - t {
                    t + params
                } else {
                    end
                }
            } else {
                s
            };
            let data = if w > 0 && h > 0 && s2 + 2 <= end {
                spec_read_plane(b, s2 + 2, w as int, h as int, be16(b, s2))
            } else {
                Ok((Seq::empty(), s2))
            };
            match data {
                Err(e) => Err(e),
                Ok((d, _)) => Ok(
                    (
                        Some(
                            MaskModel {
                                left: left as i32,
                                top: top as i32,
                                width: w,
                                height: h,
                                data: d,
                                disabled: flags & 2 != 0,
                            },
                        ),
                        end,
                    ),
                ),
            }
        }
    }
}

/// The `nch` channel ids of a layer record, at `c` in steps of six bytes.
pub open spec fn channel_ids(b: Seq<u8>, c: int, nch: int) -> Seq<i16> {
    Seq::new(nch as nat, |k: int| sbe16(b, c + 6 * k) as i16)
}

/// Channel planes of a layer, in the order of its channel ids, from `ids[k]`.
pub open spec fn spec_read_layer_planes(
    b: Seq<u8>,
    p: int,
    ids: Seq<i16>,
    k: int,
    w: int,
    h: int,
    acc: Seq<(i16, Seq<u8>)>,
) -> Result<(Seq<(i16, Seq<u8>)>, int), PsdError>
    decreases ids.len() - k,
{
    if k >= ids.len() {
        Ok((acc, p))
    } else if p + 2 > b.len() {
        Err(PsdError::Truncated)
    } else if w == 0 || h == 0 {
        spec_read_layer_planes(b, p + 2, ids, k + 1, w, h, acc.push((ids[k], Seq::empty())))
    } else {
        match spec_read_plane(b, p + 2, w, h, be16(b, p)) {
            Err(e) => Err(e),
            Ok((d, q)) => spec_read_layer_planes(b, q, ids, k + 1, w, h, acc.push((ids[k], d))),
        }
    }
}

/// One layer record at `p`, followed by its channel data.
#[verifier::opaque]
pub open spec fn spec_read_layer(b: Seq<u8>, p: int) -> Result<(LayerModel, int), PsdError> {
    if p + 18 > b.len() {
        Err(PsdError::Truncated)
    } else {
        let top = sbe32(b, p);
        let left = sbe32(b, p + 4);
        let bottom = sbe32(b, p + 8);
        let right = sbe32(b, p + 12);
        let w = side(left, right);
        let h = side(top, bottom);
        let nch = be16(b, p + 16);
        let c = p + 18;
        let q = c + 6 * nch;
        if nch > 64 {
            Err(PsdError::TooManyChannels)
        } else if q + 16 > b.len() {
            Err(PsdError::Truncated)
        } else {
            let key = b.subrange(q + 4, q + 8);
            let opacity = b[q + 8];
            let clipping = b[q + 9];
            let flags = b[q + 10];
            let r = q + 16;
            let xe = r + be32(b, q + 12);
            if xe > b.len() {
                Err(PsdError::ExtraTooLong)
            } else {
                match spec_read_mask(b, r) {
                    Err(e) => Err(e),
                    Ok((mask, r2)) => {
                        if r2 + 4 > b.len() || r2 + 4 + be32(b, r2) > b.len() {
                            Err(PsdError::Truncated)
                        } else {
                            match spec_read_pascal(b, r2 + 4 + be32(b, r2)) {
                                Err(e) => Err(e),
                                Ok((pname, r4)) => {
                                    let nk = spec_read_extra(b, r4, xe, pname, LayerKind::Pixel);
                                    match spec_read_layer_planes(
                                        b,
                                        xe,
                                        channel_ids(b, c, nch),
                                        0,
                                        w as int,
                                        h as int,
                                        Seq::empty(),
                                    ) {
                                        Err(e) => Err(e),
                                        Ok((planes, r6)) => Ok(
                                            (
                                                LayerModel {
                                                    name: nk.0,
                                                    kind: nk.1,
                                                    visible: flags & 2 == 0,
                                                    opacity,
                                                    blend: spec_blend_of(key),
                                                    blend_key: key,
                                                    clipped: clipping != 0,
                                                    left: left as i32,
                                                    top: top as i32,
                                                    width: w,
                                                    height: h,
                                                    planes,
                                                    mask,
                                                },
                                                r6,
                                            ),
                                        ),
                                    }
                                },
                            }
                        }
                    },
                }
            }
        }
    }
}

/// Up to `n` layer records from `p`, stopping at `li_end`.
pub open spec fn spec_read_layer_list(
    b: Seq<u8>,
    p: int,
    li_end: int,
    n: int,
    acc: Seq<LayerModel>,
) -> Result<Seq<LayerModel>, PsdError>
    decreases n - acc.len(),
{
    if acc.len() >= n || p >= li_end {
        Ok(acc)
    } else {
        match spec_read_layer(b, p) {
            Err(e) => Err(e),
            Ok((l, q)) => spec_read_layer_list(b, q, li_end, n, acc.push(l)),
        }
    }
}

/// The layer section at the start of the layer and mask block `p..end`.
pub open spec fn spec_read_layers(b: Seq<u8>, p: int, end: int) -> Result<
    Seq<LayerModel>,
    PsdError,
> {
    if p + 4 > end {
        Ok(Seq::empty())
    } else {
        let len = be32(b, p);
        let li_end = if p + 4 + len < end {
            p + 4 + len
        } else {
            end
        };
        if len == 0 {
            Ok(Seq::empty())
        } else if p + 6 > b.len() {
            Err(PsdError::Truncated)
        } else {
            let count = sbe16(b, p + 4);
            let n = if count < 0 {
                -count
            } else {
                count
            };
            if n > 4096 {
                Err(PsdError::TooManyLayers(n as u16))
            } else {
                spec_read_layer_list(b, p + 6, li_end, n, Seq::empty())
            }
        }
    }
}

/// The signature "8BPS".
pub open spec fn psd_signature() -> Seq<u8> {
    tag(0x38, 0x42, 0x50, 0x53)
}

/// A whole PSD file: header, two skipped blocks, layers and the merged image.
pub open spec fn spec_read_file(b: Seq<u8>) -> Result<FileModel, PsdError> {
    if b.len() < 4 {
        Err(PsdError::Truncated)
    } else if b.subrange(0, 4) != psd_signature() {
        Err(PsdError::NotPsd)
    } else if b.len() < 6 {
        Err(PsdError::Truncated)
    } else if be16(b, 4) != 1 {
        Err(PsdError::Version(be16(b, 4) as u16))
    } else if b.len() < 26 {
        Err(PsdError::Truncated)
    } else {
        let channels = be16(b, 12);
        let height = be32(b, 14);
        let width = be32(b, 18);
        let depth = be16(b, 22);
        let mode = be16(b, 24);
        if width == 0 || height == 0 || width > MAX_SIDE || height > MAX_SIDE {
            Err(PsdError::Size(width as u32, height as u32))
        } else if depth != 8 {
            Err(PsdError::Depth(depth as u16))
        } else if mode != 3 {
            Err(PsdError::Mode(mode as u16))
        } else if channels < 3 || channels > 4 {
            Err(PsdError::Channels(channels as u16))
        } else if b.len() < 30 || 30 + be32(b, 26) + 4 > b.len() {
            Err(PsdError::Truncated)
        } else {
            let p1 = 30 + be32(b, 26);
            let p2 = p1 + 4 + be32(b, p1);
            if p2 > b.len() || p2 + 4 > b.len() {
                Err(PsdError::Truncated)
            } else {
                let p3 = p2 + 4;
                let lm_end = p3 + be32(b, p2);
                if lm_end > b.len() {
                    Err(PsdError::LayerBlockTooLong)
                } else {
                    match spec_read_layers(b, p3, lm_end) {
                        Err(e) => Err(e),
                        Ok(layers) => match spec_read_merged(b, lm_end, channels, width, height) {
                            Err(e) => Err(e),
                            Ok(merged) => Ok(
                                FileModel {
                                    width: width as nat,
                                    height: height as nat,
                                    layers,
                                    merged,
                                },
                            ),
                        },
                    }
                }
            }
        }
    }
}

/// `String::from_utf16_lossy`: decodes UTF-16 code units, replacing
/// unpaired surrogates with U+FFFD (see `utf16_lossy`).
#[verifier::external_body]
fn decode_utf16_units(units: &[u16]) -> (s: String)
    ensures
        s@ == utf16_lossy(units@),
{
    String::from_utf16_lossy(units)
}

/// A string made of the given characters.
#[verifier::external_body]
pub(crate) fn string_from_chars(chars: &[char]) -> (s: String)
    ensures
        s@ == chars@,
{
    chars.iter().collect()
}

/// Reads with bounds checks.
struct Reader<'a> {
    b: &'a [u8],
    p: usize,
}

impl<'a> Reader<'a> {
    spec fn wf(&self) -> bool {
        self.p <= self.b@.len() <= usize::MAX
    }

    fn take(&mut self, n: usize) -> (res: Result<&'a [u8], PsdError>)
        requires
            old(self).wf(),
        ensures
            final(self).wf(),
            final(self).b == old(self).b,
            old(self).p + n > old(self).b@.len() ==> res == Err::<&'a [u8], PsdError>(
                PsdError::Truncated,
            ) && final(self).p == old(self).p,
            old(self).p + n <= old(self).b@.len() ==> (res matches Ok(s) && s@ == old(
                self,
            ).b@.subrange(old(self).p as int, old(self).p + n) && final(self).p == old(self).p
                + n),
    {
        if n > self.b.len() - self.p {
            return Err(PsdError::Truncated);
        }
        let s = &self.b[self.p..self.p + n];
        self.p = self.p + n;
        Ok(s)
    }

    fn skip(&mut self, n: usize) -> (res: Result<(), PsdError>)
        requires
            old(self).wf(),
        ensures
            final(self).wf(),
            final(self).b == old(self).b,
            old(self).p + n > old(self).b@.len() ==> res == Err::<(), PsdError>(
                PsdError::Truncated,
            ) && final(self).p == old(self).p,
            old(self).p + n <= old(self).b@.len() ==> res is Ok && final(self).p == old(self).p
                + n,
    {
        if n > self.b.len() - self.p {
            return Err(PsdError::Truncated);
        }
        self.p = self.p + n;
        Ok(())
    }

    fn u16(&mut self) -> (res: Result<u16, PsdError>)
        requires
            old(self).wf(),
        ensures
            final(self).wf(),
            final(self).b == old(self).b,
            old(self).p + 2 > old(self).b@.len() ==> res == Err::<u16, PsdError>(
                PsdError::Truncated,
            ) && final(self).p == old(self).p,
            old(self).p + 2 <= old(self).b@.len() ==> res == Ok::<u16, PsdError>(
                be16(old(self).b@, old(self).p as int) as u16,
            ) && final(self).p == old(self).p + 2,
    {
        let s = self.take(2)?;
        Ok(s[0] as u16 * 256 + s[1] as u16)
    }

    fn i16(&mut self) -> (res: Result<i16, PsdError>)
        requires
            old(self).wf(),
        ensures
            final(self).wf(),
            final(self).b == old(self).b,
            old(self).p + 2 > old(self).b@.len() ==> res == Err::<i16, PsdError>(
                PsdError::Truncated,
            ) && final(self).p == old(self).p,
            old(self).p + 2 <= old(self).b@.len() ==> res == Ok::<i16, PsdError>(
                sbe16(old(self).b@, old(self).p as int) as i16,
            ) && final(self).p == old(self).p + 2,
    {
        let v = self.u16()?;
        if v >= 32768 {
            Ok((v as i32 - 65536) as i16)
        } else {
            Ok(v as i16)
        }
    }

    fn u32(&mut self) -> (res: Result<u32, PsdError>)
        requires
            old(self).wf(),
        ensures
            final(self).wf(),
            final(self).b == old(self).b,
            old(self).p + 4 > old(self).b@.len() ==> res == Err::<u32, PsdError>(
                PsdError::Truncated,
            ) && final(self).p == old(self).p,
            old(self).p + 4 <= old(self).b@.len() ==> res == Ok::<u32, PsdError>(
                be32(old(self).b@, old(self).p as int) as u32,
            ) && final(self).p == old(self).p + 4,
    {
        let s = self.take(4)?;
        Ok(s[0] as u32 * 16777216 + s[1] as u32 * 65536 + s[2] as u32 * 256 + s[3] as u32)
    }

    fn i32(&mut self) -> (res: Result<i32, PsdError>)
        requires
            old(self).wf(),
        ensures
            final(self).wf(),
            final(self).b == old(self).b,
            old(self).p + 4 > old(self).b@.len() ==> res == Err::<i32, PsdError>(
                PsdError::Truncated,
            ) && final(self).p == old(self).p,
            old(self).p + 4 <= old(self).b@.len() ==> res == Ok::<i32, PsdError>(
                sbe32(old(self).b@, old(self).p as int) as i32,
            ) && final(self).p == old(self).p + 4,
    {
        let v = self.u32()?;
        if v >= 0x8000_0000 {
            Ok((v as i64 - 0x1_0000_0000) as i32)
        } else {
            Ok(v as i32)
        }
    }
}


/// A plane of `w`×`h` bytes: raw or PackBits rows.
fn read_plane(r: &mut Reader, w: usize, h: usize, comp: u16) -> (res: Result<Vec<u8>, PsdError>)
    requires
        old(r).wf(),
    ensures
        final(r).wf(),
        final(r).b == old(r).b,
        match spec_read_plane(old(r).b@, old(r).p as int, w as int, h as int, comp as int) {
            Ok((d, q)) => res matches Ok(v) && v@ == d && final(r).p == q,
            Err(e) => res == Err::<Vec<u8>, PsdError>(e),
        },
{
    let want = match w.checked_mul(h) {
        Some(v) => v,
        None => {
            return Err(PsdError::Truncated);
        },
    };
    if comp == 0 {
        let s = r.take(want)?;
        Ok(vstd::slice::slice_to_vec(s))
    } else if comp == 1 {
        if h > (r.b.len() - r.p) / 2 {
            return Err(PsdError::Truncated);
        }
        let cp = r.p;
        r.p = r.p + 2 * h;
        let mut out: Vec<u8> = Vec::new();
        let mut k: usize = 0;
        while k < h
            invariant
                r.wf(),
                r.b == old(r).b,
                cp == old(r).p,
                cp + 2 * h <= r.b@.len(),
                k <= h,
                w * h == want,
                spec_read_plane(old(r).b@, old(r).p as int, w as int, h as int, comp as int)
                    == spec_read_rows(r.b@, r.p as int, cp as int, w as int, h as int, k as int, out@),
            decreases h - k,
        {
            let len = r.b[cp + 2 * k] as usize * 256 + r.b[cp + 2 * k + 1] as usize;
            if len > r.b.len() - r.p {
                return Err(PsdError::RowPastEnd);
            }
            let data = &r.b[r.p..r.p + len];
            let mut row = match unpackbits(data, w) {
                Ok(v) => v,
                Err(_) => {
                    return Err(PsdError::Rle);
                },
            };
            out.append(&mut row);
            r.p = r.p + len;
            k = k + 1;
        }
        Ok(out)
    } else {
        Err(PsdError::Compression(comp))
    }
}

/// The merged image: the compression, then one plane per channel.
fn read_merged(r: &mut Reader, channels: usize, width: usize, height: usize) -> (res: Result<
    PsdImage,
    PsdError,
>)
    requires
        old(r).wf(),
        3 <= channels <= 4,
        1 <= width <= MAX_SIDE,
        1 <= height <= MAX_SIDE,
    ensures
        match spec_read_merged(old(r).b@, old(r).p as int, channels as int, width as int, height as int) {
            Ok(m) => res matches Ok(img) && img@ == m,
            Err(e) => res matches Err(e2) && e2 == e,
        },
{
    let compression = r.u16()?;
    assert(width * height <= 900_000_000) by (nonlinear_arith)
        requires
            1 <= width <= 30000,
            1 <= height <= 30000,
    ;
    let n = width * height;
    let mut planes: Vec<Vec<u8>> = Vec::new();
    assert(planes@.map_values(|v: Vec<u8>| v@) =~= Seq::<Seq<u8>>::empty());
    let ghost b = r.b@;
    let ghost p0 = old(r).p as int;
    while planes.len() < channels
        invariant
            r.wf(),
            r.b@ == b,
            b == old(r).b@,
            p0 == old(r).p,
            p0 + 2 <= b.len(),
            compression as int == be16(b, p0),
            planes.len() <= channels,
            n == width * height,
            spec_read_merged(b, p0, channels as int, width as int, height as int) == match spec_read_planes(
                b,
                r.p as int,
                channels as int,
                width as int,
                height as int,
                compression as int,
                planes@.map_values(|v: Vec<u8>| v@),
            ) {
                Err(e) => Err(e),
                Ok((pl, _)) => Ok(
                    ImageModel {
                        width: width as nat,
                        height: height as nat,
                        pixels: merge_planes(pl, channels as int, width * height),
                    },
                ),
            },
            forall|c: int| 0 <= c < planes.len() ==> (#[trigger] planes@[c])@.len() == n,
        decreases channels - planes.len(),
    {
        proof {
            lemma_plane_len(r.b@, r.p as int, width as int, height as int, compression as int);
        }
        let ghost acc = planes@.map_values(|v: Vec<u8>| v@);
        let ghost pp = r.p as int;
        assert(spec_read_planes(b, pp, channels as int, width as int, height as int, compression as int, acc)
            == match spec_read_plane(b, pp, width as int, height as int, compression as int) {
                Err(e) => Err(e),
                Ok((d, q)) => spec_read_planes(b, q, channels as int, width as int, height as int, compression as int, acc.push(d)),
            });
        let pl = match read_plane(r, width, height, compression) {
            Ok(v) => v,
            Err(e) => {
                assert(spec_read_plane(b, pp, width as int, height as int, compression as int)
                    == Err::<(Seq<u8>, int), PsdError>(e));
                assert(spec_read_planes(b, pp, channels as int, width as int, height as int, compression as int, acc)
                    == Err::<(Seq<Seq<u8>>, int), PsdError>(e));
                return Err(e);
            },
        };
        let ghost before = planes@;
        planes.push(pl);
        assert(planes@.map_values(|v: Vec<u8>| v@) =~= before.map_values(|v: Vec<u8>| v@).push(
            pl@,
        ));
    }
    let ghost pls = planes@.map_values(|v: Vec<u8>| v@);
    assert(spec_read_planes(b, r.p as int, channels as int, width as int, height as int, compression as int, pls) == Ok::<(Seq<Seq<u8>>, int), PsdError>((pls, r.p as int)));
    let mut pixels: Vec<u8> = Vec::new();
    let mut x: usize = 0;
    while x < n
        invariant
            x <= n,
            n == width * height,
            planes.len() == channels,
            3 <= channels <= 4,
            forall|c: int| 0 <= c < planes.len() ==> (#[trigger] planes@[c])@.len() == n,
            pls == planes@.map_values(|v: Vec<u8>| v@),
            pixels@.len() == 4 * x,
            forall|k: int| 0 <= k < 4 * x ==> pixels@[k] == merge_planes(pls, channels as int, n as int)[k],
        decreases n - x,
    {
        let a = if channels == 4 {
            planes[3][x]
        } else {
            255
        };
        pixels.push(planes[0][x]);
        pixels.push(planes[1][x]);
        pixels.push(planes[2][x]);
        pixels.push(a);
        proof {
            assert forall|k: int| 0 <= k < 4 * (x + 1) implies pixels@[k] == merge_planes(
                pls,
                channels as int,
                n as int,
            )[k] by {
                if k >= 4 * x {
                    assert(k / 4 == x);
                    if k % 4 < 3 {
                        assert(pls[k % 4] == planes@[k % 4]@);
                    } else if channels == 4 {
                        assert(pls[3] == planes@[3]@);
                    }
                }
            }
        }
        x = x + 1;
    }
    assert(pixels@ =~= merge_planes(pls, channels as int, n as int));
    Ok(PsdImage { width, height, pixels })
}

/// A plane read successfully has exactly `w`×`h` bytes.
proof fn lemma_plane_len(b: Seq<u8>, p: int, w: int, h: int, comp: int)
    requires
        p >= 0,
        w >= 0,
        h >= 0,
    ensures
        spec_read_plane(b, p, w, h, comp) matches Ok((d, q)) ==> d.len() == w * h && q >= p,
{
    if w * h <= usize::MAX && comp == 1 && p + 2 * h <= b.len() {
        assert(0 * w == 0);
        lemma_rows_len(b, p + 2 * h, p, w, h, 0, Seq::empty());
        assert(h * w == w * h) by (nonlinear_arith);
    }
}

proof fn lemma_rows_len(b: Seq<u8>, q: int, cp: int, w: int, h: int, k: int, acc: Seq<u8>)
    requires
        w >= 0,
        0 <= k <= h,
        acc.len() == k * w,
    ensures
        spec_read_rows(b, q, cp, w, h, k, acc) matches Ok((d, q2)) ==> d.len() == h * w && q2
            >= q,
    decreases h - k,
{
    if k < h {
        let len = be16(b, cp + 2 * k);
        if q + len <= b.len() {
            if let Some(row) = spec_unpackbits(b.subrange(q, q + len), w as nat) {
                lemma_unpack_len(b.subrange(q, q + len), 0, Seq::empty(), w as nat);
                assert((k + 1) * w == k * w + w) by (nonlinear_arith);
                lemma_rows_len(b, q + len, cp, w, h, k + 1, acc + row);
            }
        }
    }
}

/// What unpacking gives has the wanted length.
pub proof fn lemma_unpack_len(src: Seq<u8>, i: int, out: Seq<u8>, want: nat)
    ensures
        crate::packbits::unpack_from(src, i, out, want) matches Some(v) ==> v.len() == want,
    decreases src.len() - i,
{
    if out.len() < want && 0 <= i < src.len() {
        let n = src[i];
        if n < 128 {
            if i + 1 + n + 1 <= src.len() {
                lemma_unpack_len(src, i + 1 + n + 1, out + src.subrange(i + 1, i + 1 + n + 1), want);
            }
        } else if n > 128 {
            if i + 1 < src.len() {
                lemma_unpack_len(src, i + 2, out + Seq::new((257 - n) as nat, |k: int| src[i + 1]), want);
            }
        } else {
            lemma_unpack_len(src, i + 1, out, want);
        }
    }
}

/// A length-prefixed Latin-1 name padded to four bytes.
fn read_pascal(r: &mut Reader) -> (res: Result<String, PsdError>)
    requires
        old(r).wf(),
    ensures
        final(r).wf(),
        final(r).b == old(r).b,
        match spec_read_pascal(old(r).b@, old(r).p as int) {
            Ok((name, q)) => res matches Ok(s) && s@ == name && final(r).p == q,
            Err(e) => res matches Err(e2) && e2 == e,
        },
{
    let n = r.take(1)?[0] as usize;
    let raw = r.take(n)?;
    let pad = (4 - (n + 1) % 4) % 4;
    r.skip(pad)?;
    let mut chars: Vec<char> = Vec::new();
    let mut k: usize = 0;
    while k < raw.len()
        invariant
            k <= raw.len(),
            chars@ == latin1(raw@.take(k as int)),
        decreases raw.len() - k,
    {
        chars.push(raw[k] as char);
        k = k + 1;
        assert(chars@ =~= latin1(raw@.take(k as int)));
    }
    assert(raw@.take(raw.len() as int) =~= raw@);
    Ok(string_from_chars(chars.as_slice()))
}

/// Big-endian UTF-16 bytes as a string; a trailing odd byte is dropped.
fn decode_utf16(b: &[u8]) -> (s: String)
    ensures
        s@ == utf16_lossy(utf16_units(b@)),
{
    let mut units: Vec<u16> = Vec::new();
    let mut i: usize = 0;
    while i < b.len() / 2
        invariant
            i <= b.len() / 2,
            units@.len() == i,
            forall|k: int| 0 <= k < i ==> units@[k] == utf16_units(b@)[k],
        decreases b.len() / 2 - i,
    {
        units.push(b[2 * i] as u16 * 256 + b[2 * i + 1] as u16);
        i = i + 1;
    }
    assert(units@ =~= utf16_units(b@));
    decode_utf16_units(units.as_slice())
}


/// The side of a frame from its two edges, as a count of pixels.
fn frame_side(lo: i32, hi: i32) -> (n: usize)
    ensures
        n as nat == side(lo as int, hi as int),
{
    let d = hi as i64 - lo as i64;
    if d > 0 {
        d as usize
    } else {
        0
    }
}

/// Big-endian u32 at `p` of `b`.
fn be32_at(b: &[u8], p: usize) -> (v: usize)
    requires
        p + 4 <= b@.len(),
    ensures
        v as int == be32(b@, p as int),
{
    b[p] as usize * 16777216 + b[p + 1] as usize * 65536 + b[p + 2] as usize * 256 + b[p + 3] as usize
}

/// Whether the four bytes at `p` are `a b c d`.
fn tag_at(b: &[u8], p: usize, a: u8, c1: u8, c2: u8, d: u8) -> (r: bool)
    requires
        p + 4 <= b@.len(),
    ensures
        r == (b@.subrange(p as int, p + 4) == tag(a, c1, c2, d)),
{
    let r = b[p] == a && b[p + 1] == c1 && b[p + 2] == c2 && b[p + 3] == d;
    if r {
        assert(b@.subrange(p as int, p + 4) =~= tag(a, c1, c2, d));
    } else {
        assert(b@.subrange(p as int, p + 4)[0] != a || b@.subrange(p as int, p + 4)[1] != c1
            || b@.subrange(p as int, p + 4)[2] != c2 || b@.subrange(p as int, p + 4)[3] != d);
    }
    r
}

/// A layer mask record; a record whose length runs past the data is skipped
/// as "no mask".
fn read_mask(r: &mut Reader) -> (res: Result<Option<PsdMask>, PsdError>)
    requires
        old(r).wf(),
    ensures
        final(r).wf(),
        final(r).b == old(r).b,
        match spec_read_mask(old(r).b@, old(r).p as int) {
            Ok((m, q)) => res matches Ok(v) && mask_view(v) == m && final(r).p == q,
            Err(e) => res matches Err(e2) && e2 == e,
        },
{
    let len = r.u32()? as usize;
    if len == 0 || len > r.b.len() - r.p {
        return Ok(None);
    }
    let end = r.p + len;
    let ghost q = r.p as int;
    if 18 > r.b.len() - r.p {
        return Err(PsdError::Truncated);
    }
    let top = r.i32()?;
    let left = r.i32()?;
    let bottom = r.i32()?;
    let right = r.i32()?;
    let _default = r.take(1)?[0];
    let flags = r.take(1)?[0];
    let width = frame_side(left, right);
    let height = frame_side(top, bottom);
    if r.p <= end && end - r.p >= 8 && tag_at(r.b, r.p, 0x38, 0x42, 0x49, 0x4d) {
        r.p = r.p + 4;
        let params = r.u32()? as usize;
        let room = end - r.p;
        r.skip(if params < room {
            params
        } else {
            room
        })?;
    }
    let mut data: Vec<u8> = Vec::new();
    if width > 0 && height > 0 && r.p <= end && end - r.p >= 2 {
        let comp = r.u16()?;
        data = read_plane(r, width, height, comp)?;
    }
    r.p = end;
    Ok(Some(PsdMask { left, top, width, height, data, disabled: flags & 2 != 0 }))
}

/// The tagged blocks of a layer's extra data, up to `xe`; the reader ends at
/// `xe`.
fn read_extra(r: &mut Reader, xe: usize, pname: String) -> (res: (String, LayerKind))
    requires
        old(r).wf(),
        old(r).p <= xe <= old(r).b@.len(),
    ensures
        final(r).wf(),
        final(r).b == old(r).b,
        final(r).p == xe,
        (res.0@, res.1) == spec_read_extra(old(r).b@, old(r).p as int, xe as int, pname@, LayerKind::Pixel),
{
    let b = r.b;
    let mut pos = r.p;
    let mut name = pname;
    let mut kind = LayerKind::Pixel;
    while pos <= xe && xe - pos >= 12
        invariant
            b@ == old(r).b@,
            xe <= b@.len() <= usize::MAX,
            spec_read_extra(b@, old(r).p as int, xe as int, pname@, LayerKind::Pixel)
                == spec_read_extra(b@, pos as int, xe as int, name@, kind),
        ensures
            spec_read_extra(b@, old(r).p as int, xe as int, pname@, LayerKind::Pixel) == (name@, kind),
        decreases xe + 4 - pos,
    {
        let ghost p0 = pos as int;
        let ghost n0 = name@;
        let ghost k0 = kind;
        let len = be32_at(b, pos + 4);
        let q = pos + 8;
        if len == 0 || len > xe - q {
            assert(spec_read_extra(b@, p0, xe as int, n0, k0) == (n0, k0));
            break;
        }
        if tag_at(b, pos, 0x6c, 0x75, 0x6e, 0x69) {
            let nchars = be32_at(b, q);
            let q2 = q + 4;
            if len >= 4 && nchars <= (len - 4) / 2 {
                assert(nchars * 2 <= len - 4);
                name = decode_utf16(&b[q2..q2 + 2 * nchars]);
                pos = q2 + 2 * nchars;
            } else if len > xe - q2 {
                assert(!(len >= 4 && nchars * 2 <= len - 4));
                assert(spec_read_extra(b@, q2 + len, xe as int, n0, k0) == (n0, k0));
                pos = xe;
                assert(spec_read_extra(b@, pos as int, xe as int, n0, k0) == (n0, k0));
            } else {
                assert(!(len >= 4 && nchars * 2 <= len - 4));
                pos = q2 + len;
            }
        } else if tag_at(b, pos, 0x6c, 0x73, 0x63, 0x74) {
            let v = be32_at(b, q);
            kind = if v == 1 {
                LayerKind::GroupOpen
            } else if v == 2 {
                LayerKind::GroupClosed
            } else if v == 3 {
                LayerKind::Bounding
            } else {
                LayerKind::Pixel
            };
            pos = q + 4 + if len >= 4 {
                len - 4
            } else {
                0
            };
        } else {
            pos = q + len;
        }
        assert(spec_read_extra(b@, p0, xe as int, n0, k0) == spec_read_extra(b@, pos as int, xe as int, name@, kind));
    }
    r.p = xe;
    (name, kind)
}

/// Channel planes of a layer, one per channel id.
fn read_layer_planes(r: &mut Reader, ids: &Vec<i16>, w: usize, h: usize) -> (res: Result<
    Vec<(i16, Vec<u8>)>,
    PsdError,
>)
    requires
        old(r).wf(),
    ensures
        final(r).wf(),
        final(r).b == old(r).b,
        match spec_read_layer_planes(old(r).b@, old(r).p as int, ids@, 0, w as int, h as int, Seq::empty()) {
            Ok((pl, q)) => res matches Ok(v) && v@.map_values(|p: (i16, Vec<u8>)| plane_view(p)) == pl
                && final(r).p == q,
            Err(e) => res matches Err(e2) && e2 == e,
        },
{
    let mut planes: Vec<(i16, Vec<u8>)> = Vec::new();
    let mut k: usize = 0;
    assert(planes@.map_values(|p: (i16, Vec<u8>)| plane_view(p)) =~= Seq::<(i16, Seq<u8>)>::empty());
    while k < ids.len()
        invariant
            r.wf(),
            r.b == old(r).b,
            k <= ids.len(),
            planes@.len() == k,
            spec_read_layer_planes(old(r).b@, old(r).p as int, ids@, 0, w as int, h as int, Seq::empty())
                == spec_read_layer_planes(r.b@, r.p as int, ids@, k as int, w as int, h as int,
                planes@.map_values(|p: (i16, Vec<u8>)| plane_view(p))),
        decreases ids.len() - k,
    {
        let ghost acc = planes@.map_values(|p: (i16, Vec<u8>)| plane_view(p));
        let comp = r.u16()?;
        let d = if w == 0 || h == 0 {
            Vec::new()
        } else {
            match read_plane(r, w, h, comp) {
                Ok(v) => v,
                Err(e) => {
                    return Err(e);
                },
            }
        };
        let ghost dv = d@;
        planes.push((ids[k], d));
        assert(planes@.map_values(|p: (i16, Vec<u8>)| plane_view(p)) =~= acc.push((ids@[k as int], dv)));
        k = k + 1;
    }
    Ok(planes)
}


/// The `nch` channel entries of a layer record (id and data length).
fn read_channel_ids(r: &mut Reader, nch: usize) -> (res: Result<Vec<i16>, PsdError>)
    requires
        old(r).wf(),
    ensures
        final(r).wf(),
        final(r).b == old(r).b,
        old(r).p + 6 * nch > old(r).b@.len() ==> res is Err && res == Err::<Vec<i16>, PsdError>(PsdError::Truncated),
        old(r).p + 6 * nch <= old(r).b@.len() ==> (res matches Ok(ids) && ids@ == channel_ids(
            old(r).b@,
            old(r).p as int,
            nch as int,
        ) && final(r).p == old(r).p + 6 * nch),
{
    let ghost b = r.b@;
    let ghost c = r.p as int;
    if nch > (r.b.len() - r.p) / 6 {
        return Err(PsdError::Truncated);
    }
    let mut ids: Vec<i16> = Vec::new();
    while ids.len() < nch
        invariant
            r.wf(),
            r.b == old(r).b,
            r.b@ == b,
            c == old(r).p,
            c + 6 * nch <= b.len(),
            ids.len() <= nch,
            r.p as int == c + 6 * ids.len(),
            ids@ == channel_ids(b, c, ids.len() as int),
        decreases nch - ids.len(),
    {
        let id = r.i16()?;
        let _len = r.u32()?;
        ids.push(id);
        assert(ids@ =~= channel_ids(b, c, ids.len() as int));
    }
    Ok(ids)
}

/// The fixed fields after the channel entries: signature, blend key,
/// opacity, clipping, flags, filler and the extra data length.
fn read_record_fields(r: &mut Reader) -> (res: Result<([u8; 4], u8, u8, u8, usize), PsdError>)
    requires
        old(r).wf(),
    ensures
        final(r).wf(),
        final(r).b == old(r).b,
        old(r).p + 16 > old(r).b@.len() ==> res == Err::<([u8; 4], u8, u8, u8, usize), PsdError>(
            PsdError::Truncated,
        ),
        old(r).p + 16 <= old(r).b@.len() ==> ({
            let b = old(r).b@;
            let q = old(r).p as int;
            res matches Ok(f) && f.0@ == b.subrange(q + 4, q + 8) && f.1 == b[q + 8] && f.2 == b[q + 9]
                && f.3 == b[q + 10] && f.4 == be32(b, q + 12) && final(r).p == q + 16
        }),
{
    if 16 > r.b.len() - r.p {
        return Err(PsdError::Truncated);
    }
    let b = r.b;
    let q = r.p;
    let key: [u8; 4] = [b[q + 4], b[q + 5], b[q + 6], b[q + 7]];
    assert(key@ =~= b@.subrange(q + 4, q + 8));
    let extra = be32_at(b, q + 12);
    r.p = q + 16;
    Ok((key, b[q + 8], b[q + 9], b[q + 10], extra))
}

/// One layer record and its channel data.
fn read_layer(r: &mut Reader) -> (res: Result<PsdLayer, PsdError>)
    requires
        old(r).wf(),
    ensures
        final(r).wf(),
        final(r).b == old(r).b,
        match spec_read_layer(old(r).b@, old(r).p as int) {
            Ok((l, q)) => res matches Ok(v) && v@ == l && final(r).p == q,
            Err(e) => res matches Err(e2) && e2 == e,
        },
{
    let ghost b = r.b@;
    proof {
        reveal(spec_read_layer);
    }
    if 18 > r.b.len() - r.p {
        return Err(PsdError::Truncated);
    }
    let top = r.i32()?;
    let left = r.i32()?;
    let bottom = r.i32()?;
    let right = r.i32()?;
    let width = frame_side(left, right);
    let height = frame_side(top, bottom);
    let nch = r.u16()? as usize;
    if nch > 64 {
        return Err(PsdError::TooManyChannels);
    }
    let ids = read_channel_ids(r, nch)?;
    let (key, opacity, clipping, flags, extra) = read_record_fields(r)?;
    if extra > r.b.len() - r.p {
        return Err(PsdError::ExtraTooLong);
    }
    let xe = r.p + extra;
    let mask = read_mask(r)?;
    let ranges = r.u32()? as usize;
    r.skip(ranges)?;
    let pname = read_pascal(r)?;
    if r.p > xe {
        // The name ran past the extra data: no tagged blocks are read.
        assert(spec_read_extra(b, r.p as int, xe as int, pname@, LayerKind::Pixel) == (pname@, LayerKind::Pixel));
        r.p = xe;
        assert(spec_read_extra(b, r.p as int, xe as int, pname@, LayerKind::Pixel) == (pname@, LayerKind::Pixel));
    }
    let (name, kind) = read_extra(r, xe, pname);
    let planes = read_layer_planes(r, &ids, width, height)?;
    Ok(
        PsdLayer {
            name,
            kind,
            visible: flags & 2 == 0,
            opacity,
            blend: crate::psd::blend_of(&key),
            blend_key: key,
            clipped: clipping != 0,
            left,
            top,
            width,
            height,
            planes,
            mask,
        },
    )
}


/// The layer section at the start of the layer and mask block ending at
/// `end`.
fn read_layers(r: &mut Reader, end: usize) -> (res: Result<Vec<PsdLayer>, PsdError>)
    requires
        old(r).wf(),
        old(r).p <= end <= old(r).b@.len(),
    ensures
        final(r).wf(),
        final(r).b == old(r).b,
        match spec_read_layers(old(r).b@, old(r).p as int, end as int) {
            Ok(ls) => res matches Ok(v) && v@.map_values(|l: PsdLayer| layer_view(l)) == ls,
            Err(e) => res matches Err(e2) && e2 == e,
        },
{
    let ghost b = r.b@;
    let ghost p = r.p as int;
    let mut out: Vec<PsdLayer> = Vec::new();
    assert(out@.map_values(|l: PsdLayer| layer_view(l)) =~= Seq::<LayerModel>::empty());
    if end - r.p < 4 {
        return Ok(out);
    }
    let len = r.u32()? as usize;
    if len == 0 {
        return Ok(out);
    }
    let li_end = if len < end - r.p {
        r.p + len
    } else {
        end
    };
    let count = r.i16()?;
    let n: usize = if count < 0 {
        (0 - count as i32) as usize
    } else {
        count as usize
    };
    if n > 4096 {
        return Err(PsdError::TooManyLayers(n as u16));
    }
    let mut k: usize = 0;
    while k < n
        invariant
            r.wf(),
            r.b == old(r).b,
            r.b@ == b,
            b == old(r).b@,
            p == old(r).p,
            k <= n,
            out@.len() == k,
            spec_read_layers(b, p, end as int) == spec_read_layer_list(b, r.p as int, li_end as int, n as int,
                out@.map_values(|l: PsdLayer| layer_view(l))),
        ensures
            spec_read_layers(b, p, end as int) == Ok::<Seq<LayerModel>, PsdError>(out@.map_values(|l: PsdLayer| layer_view(l))),
        decreases n - k,
    {
        if r.p >= li_end {
            break;
        }
        let ghost acc = out@.map_values(|l: PsdLayer| layer_view(l));
        let ghost pp = r.p as int;
        assert(spec_read_layer_list(b, pp, li_end as int, n as int, acc) == match spec_read_layer(b, pp) {
            Err(e) => Err(e),
            Ok((l, q)) => spec_read_layer_list(b, q, li_end as int, n as int, acc.push(l)),
        });
        let l = match read_layer(r) {
            Ok(l) => l,
            Err(e) => {
                assert(spec_read_layer(b, pp) == Err::<(LayerModel, int), PsdError>(e));
                return Err(e);
            },
        };
        let ghost lv = l@;
        out.push(l);
        assert(out@.map_values(|l: PsdLayer| layer_view(l)) =~= acc.push(lv));
        k = k + 1;
    }
    Ok(out)
}

/// Reads a whole PSD: layers with their masks and folders, and the merged
/// image of the document.
pub fn read_file(bytes: &[u8]) -> (res: Result<PsdFile, PsdError>)
    ensures
        match spec_read_file(bytes@) {
            Ok(f) => res matches Ok(v) && v@ == f,
            Err(e) => res matches Err(e2) && e2 == e,
        },
{
    let mut r = Reader { b: bytes, p: 0 };
    let ghost b = bytes@;
    if bytes.len() < 4 {
        return Err(PsdError::Truncated);
    }
    if !tag_at(bytes, 0, 0x38, 0x42, 0x50, 0x53) {
        assert(b.subrange(0, 4) != psd_signature());
        return Err(PsdError::NotPsd);
    }
    r.p = 4;
    let version = r.u16()?;
    if version != 1 {
        return Err(PsdError::Version(version));
    }
    if bytes.len() < 26 {
        return Err(PsdError::Truncated);
    }
    r.skip(6)?;
    let channels = r.u16()?;
    let height = r.u32()?;
    let width = r.u32()?;
    let depth = r.u16()?;
    let mode = r.u16()?;
    if width == 0 || height == 0 || width > 30000 || height > 30000 {
        return Err(PsdError::Size(width, height));
    }
    if depth != 8 {
        return Err(PsdError::Depth(depth));
    }
    if mode != 3 {
        return Err(PsdError::Mode(mode));
    }
    if channels < 3 || channels > 4 {
        return Err(PsdError::Channels(channels));
    }
    // The colour mode block and the resource block are skipped by length.
    let l1 = r.u32()? as usize;
    r.skip(l1)?;
    let l2 = r.u32()? as usize;
    r.skip(l2)?;
    let lm_len = r.u32()? as usize;
    if lm_len > bytes.len() - r.p {
        return Err(PsdError::LayerBlockTooLong);
    }
    let lm_end = r.p + lm_len;
    let layers = read_layers(&mut r, lm_end)?;
    // Whatever else the block holds (global mask, extra blocks) is skipped.
    r.p = lm_end;
    let merged = read_merged(&mut r, channels as usize, width as usize, height as usize)?;
    Ok(PsdFile { width: width as usize, height: height as usize, layers, merged })
}

/// Reads a PSD and returns only its merged RGBA image.
pub fn read(bytes: &[u8]) -> (res: Result<PsdImage, PsdError>)
    ensures
        match spec_read_file(bytes@) {
            Ok(f) => res matches Ok(v) && v@ == f.merged,
            Err(e) => res matches Err(e2) && e2 == e,
        },
{
    match read_file(bytes) {
        Ok(f) => Ok(f.merged),
        Err(e) => Err(e),
    }
}

} // verus!
