//! What a PSD written with layers reads back as.
use crate::packbits::{lemma_packbits_len, lemma_packbits_round_trip, spec_packbits};
use crate::doc::BlendMode;
use crate::psd::{
    lemma_blend_key_round_trip, spec_blend_key, tag, FileModel, ImageModel, LayerKind,
    LayerModel, MaskModel, MAX_SIDE, PsdError,
};
use crate::psd_laws::lemma_read_merged_section;
use crate::psd::{first_plane, spec_layer_pixel};
use crate::doc::px4;
use crate::psd_read::{
    be16, be32, channel_ids, psd_signature, sbe16, sbe32, side, spec_read_extra, spec_read_file,
    spec_read_layer, spec_read_layer_list, spec_read_layers,
    spec_read_layer_planes, spec_read_mask, spec_read_pascal, spec_read_plane,
    spec_read_rows, utf16_lossy, utf16_units, is_high_surrogate, is_low_surrogate,
};
use crate::psd_write::{
    record_channels, record_frame, record_settings, spec_body, spec_group_record, spec_pixel_record,
    spec_header, spec_merged_section, spec_record, spec_records, spec_write_layers, OutLayerModel,
    crop_plane, rect_row, rect_rows, spec_tight_rect, packed_plane_rows, row_bytes, row_lengths, spec_extra_bytes, spec_mask_bytes, spec_pascal,
    spec_plane_rows, spec_utf16, u16be, u32be, units_be, utf16_of, zeros,
};
use vstd::prelude::*;

verus! {

/// `s` stands in `b` at position `p`.
pub open spec fn at(b: Seq<u8>, p: int, s: Seq<u8>) -> bool {
    0 <= p && p + s.len() <= b.len() && b.subrange(p, p + s.len()) == s
}

proof fn lemma_at_split(b: Seq<u8>, p: int, s1: Seq<u8>, s2: Seq<u8>)
    requires
        at(b, p, s1 + s2),
    ensures
        at(b, p, s1),
        at(b, p + s1.len(), s2),
{
    let s = s1 + s2;
    assert(b.subrange(p, p + s1.len()) =~= s.subrange(0, s1.len() as int));
    assert(s.subrange(0, s1.len() as int) =~= s1);
    assert(b.subrange(p + s1.len(), p + s.len()) =~= s.subrange(s1.len() as int, s.len() as int));
    assert(s.subrange(s1.len() as int, s.len() as int) =~= s2);
}

proof fn lemma_at_index(b: Seq<u8>, p: int, s: Seq<u8>, i: int)
    requires
        at(b, p, s),
        0 <= i < s.len(),
    ensures
        b[p + i] == s[i],
{
    assert(b.subrange(p, p + s.len())[i] == b[p + i]);
}

proof fn lemma_at_be16(b: Seq<u8>, p: int, v: u16)
    requires
        at(b, p, u16be(v)),
    ensures
        be16(b, p) == v,
{
    lemma_at_index(b, p, u16be(v), 0);
    lemma_at_index(b, p, u16be(v), 1);
}

proof fn lemma_at_be32(b: Seq<u8>, p: int, v: u32)
    requires
        at(b, p, u32be(v)),
    ensures
        be32(b, p) == v,
{
    lemma_at_index(b, p, u32be(v), 0);
    lemma_at_index(b, p, u32be(v), 1);
    lemma_at_index(b, p, u32be(v), 2);
    lemma_at_index(b, p, u32be(v), 3);
}

/// A small non-negative value written as 32 bits reads back as itself, signed.
proof fn lemma_at_sbe32(b: Seq<u8>, p: int, v: int)
    requires
        0 <= v < 0x8000_0000,
        at(b, p, u32be(v as u32)),
    ensures
        sbe32(b, p) == v,
{
    lemma_at_be32(b, p, v as u32);
}

proof fn lemma_row_lengths_len(rows: spec_fn(int) -> Seq<u8>, n: int)
    requires
        0 <= n,
    ensures
        row_lengths(rows, n).len() == 2 * n,
    decreases n,
{
    if n > 0 {
        lemma_row_lengths_len(rows, n - 1);
    }
}

proof fn lemma_row_lengths_at(rows: spec_fn(int) -> Seq<u8>, n: int, k: int)
    requires
        0 <= k < n,
    ensures
        row_lengths(rows, n).subrange(2 * k, 2 * k + 2) == u16be(rows(k).len() as u16),
    decreases n,
{
    lemma_row_lengths_len(rows, n);
    lemma_row_lengths_len(rows, n - 1);
    if k < n - 1 {
        lemma_row_lengths_at(rows, n - 1, k);
        assert(row_lengths(rows, n).subrange(2 * k, 2 * k + 2) =~= row_lengths(rows, n - 1).subrange(
            2 * k,
            2 * k + 2,
        ));
    } else {
        assert(row_lengths(rows, n).subrange(2 * k, 2 * k + 2) =~= u16be(rows(k).len() as u16));
    }
}

proof fn lemma_row_bytes_split(rows: spec_fn(int) -> Seq<u8>, n: int, k: int)
    requires
        0 <= k <= n,
    ensures
        row_bytes(rows, n) == row_bytes(rows, k) + row_bytes(rows, n).subrange(
            row_bytes(rows, k).len() as int,
            row_bytes(rows, n).len() as int,
        ),
        row_bytes(rows, k).len() <= row_bytes(rows, n).len(),
    decreases n,
{
    if k < n {
        lemma_row_bytes_split(rows, n - 1, k);
        assert(row_bytes(rows, n) =~= row_bytes(rows, k) + row_bytes(rows, n).subrange(
            row_bytes(rows, k).len() as int,
            row_bytes(rows, n).len() as int,
        ));
    } else {
        assert(row_bytes(rows, n) =~= row_bytes(rows, k) + row_bytes(rows, n).subrange(
            row_bytes(rows, k).len() as int,
            row_bytes(rows, n).len() as int,
        ));
    }
}

/// Reading back PackBits rows of a plane gives the plane.
proof fn lemma_read_plane_rows(
    b: Seq<u8>,
    q0: int,
    cp: int,
    plane: Seq<u8>,
    w: nat,
    h: nat,
    k: int,
)
    requires
        1 <= w <= MAX_SIDE,
        plane.len() == w * h,
        0 <= k <= h,
        at(b, cp, row_lengths(packed_plane_rows(plane, w), h as int)),
        at(b, q0, row_bytes(packed_plane_rows(plane, w), h as int)),
    ensures
        spec_read_rows(
            b,
            q0 + row_bytes(packed_plane_rows(plane, w), k).len(),
            cp,
            w as int,
            h as int,
            k,
            plane.take(k * w),
        ) == Ok::<(Seq<u8>, int), PsdError>(
            (plane, q0 + row_bytes(packed_plane_rows(plane, w), h as int).len()),
        ),
    decreases h - k,
{
    let rows = packed_plane_rows(plane, w);
    lemma_row_lengths_len(rows, h as int);
    assert(k * w <= w * h) by (nonlinear_arith)
        requires
            0 <= k <= h,
            w >= 0,
    ;
    if k == h {
        assert(h * w == w * h) by (nonlinear_arith);
        assert(plane.take(k * w) =~= plane);
    } else {
        assert((k + 1) * w == k * w + w) by (nonlinear_arith);
        assert((k + 1) * w <= w * h) by (nonlinear_arith)
            requires
                k + 1 <= h,
                w >= 0,
        ;
        let row = plane.subrange(k * w, k * w + w);
        lemma_packbits_len(row, 0);
        lemma_packbits_round_trip(row);
        assert(rows(k) == spec_packbits(row));
        let len = rows(k).len();
        // the row length
        lemma_row_lengths_at(rows, h as int, k);
        assert(b.subrange(cp + 2 * k, cp + 2 * k + 2) =~= row_lengths(rows, h as int).subrange(
            2 * k,
            2 * k + 2,
        ));
        lemma_at_be16(b, cp + 2 * k, len as u16);
        // the row data
        let rbk = row_bytes(rows, k);
        let rbh = row_bytes(rows, h as int);
        lemma_row_bytes_split(rows, h as int, k + 1);
        let rb1 = row_bytes(rows, k + 1);
        assert(rb1 == rbk + rows(k));
        assert(b.subrange(q0 + rbk.len(), q0 + rbk.len() + len) =~= rbh.subrange(
            rbk.len() as int,
            (rbk.len() + len) as int,
        ));
        assert(rbh.subrange(rbk.len() as int, (rbk.len() + len) as int) =~= rb1.subrange(
            rbk.len() as int,
            rb1.len() as int,
        ));
        assert(rb1.subrange(rbk.len() as int, rb1.len() as int) =~= rows(k));
        assert(plane.take(k * w) + row =~= plane.take((k + 1) * w));
        lemma_read_plane_rows(b, q0, cp, plane, w, h, k + 1);
    }
}

/// A plane written as PackBits rows reads back as the plane.
pub(crate) proof fn lemma_read_packed_plane(b: Seq<u8>, p: int, plane: Seq<u8>, w: nat, h: nat)
    requires
        1 <= w <= MAX_SIDE,
        1 <= h <= MAX_SIDE,
        plane.len() == w * h,
        at(b, p, spec_plane_rows(plane, w, h)),
    ensures
        be16(b, p) == 1,
        spec_plane_rows(plane, w, h).len() >= 2,
        spec_read_plane(b, p + 2, w as int, h as int, 1) == Ok::<(Seq<u8>, int), PsdError>(
            (plane, p + spec_plane_rows(plane, w, h).len()),
        ),
{
    let rows = packed_plane_rows(plane, w);
    let rl = row_lengths(rows, h as int);
    let rb = row_bytes(rows, h as int);
    lemma_row_lengths_len(rows, h as int);
    assert(spec_plane_rows(plane, w, h) == u16be(1) + rl + rb);
    lemma_at_split(b, p, u16be(1) + rl, rb);
    lemma_at_split(b, p, u16be(1), rl);
    lemma_at_be16(b, p, 1);
    assert(w * h <= 900_000_000) by (nonlinear_arith)
        requires
            1 <= w <= 30000,
            1 <= h <= 30000,
    ;
    assert(0 * w == 0);
    assert(plane.take(0) =~= Seq::<u8>::empty());
    assert(row_bytes(rows, 0).len() == 0);
    lemma_read_plane_rows(b, p + 2 + 2 * h, p + 2, plane, w, h, 0);
}

/// What the mask block of a layer reads back as: nothing for a missing
/// mask, a mask of the wrong size or one that hides nothing; otherwise the
/// whole mask over the canvas, enabled.
pub open spec fn read_back_mask(w: nat, h: nat, mask: Option<Seq<u8>>) -> Option<MaskModel> {
    match mask {
        None => None,
        Some(m) => if m.len() != w * h || (forall|i: int| 0 <= i < m.len() ==> m[i] == 255) {
            None
        } else {
            Some(MaskModel { left: 0, top: 0, width: w, height: h, data: m, disabled: false })
        },
    }
}

/// A written mask block reads back as `read_back_mask`.
pub(crate) proof fn lemma_read_mask_bytes(b: Seq<u8>, p: int, w: nat, h: nat, mask: Option<Seq<u8>>)
    requires
        1 <= w <= MAX_SIDE,
        1 <= h <= MAX_SIDE,
        at(b, p, spec_mask_bytes(w, h, mask)),
        spec_mask_bytes(w, h, mask).len() <= u32::MAX,
    ensures
        spec_mask_bytes(w, h, mask).len() >= 4,
        spec_read_mask(b, p) == Ok::<(Option<MaskModel>, int), PsdError>(
            (read_back_mask(w, h, mask), p + spec_mask_bytes(w, h, mask).len()),
        ),
{
    let mb = spec_mask_bytes(w, h, mask);
    match mask {
        None => {
            lemma_at_be32(b, p, 0);
        },
        Some(m) => {
            if m.len() != w * h || (forall|i: int| 0 <= i < m.len() ==> m[i] == 255) {
                lemma_at_be32(b, p, 0);
            } else {
                let pr = spec_plane_rows(m, w, h);
                let a0 = u32be(0);
                let a2 = u32be(h as i32 as u32);
                let a3 = u32be(w as i32 as u32);
                let a4 = seq![0u8, 0u8];
                let a5 = tag(0x38, 0x42, 0x49, 0x4d);
                let data = a0 + a0 + a2 + a3 + a4 + a5 + a0 + pr;
                assert(mb == u32be(data.len() as u32) + data);
                lemma_at_split(b, p, u32be(data.len() as u32), data);
                lemma_at_be32(b, p, data.len() as u32);
                let q = p + 4;
                lemma_at_split(b, q, a0 + a0 + a2 + a3 + a4 + a5 + a0, pr);
                lemma_at_split(b, q, a0 + a0 + a2 + a3 + a4 + a5, a0);
                lemma_at_split(b, q, a0 + a0 + a2 + a3 + a4, a5);
                lemma_at_split(b, q, a0 + a0 + a2 + a3, a4);
                lemma_at_split(b, q, a0 + a0 + a2, a3);
                lemma_at_split(b, q, a0 + a0, a2);
                lemma_at_split(b, q, a0, a0);
                lemma_at_sbe32(b, q, 0);
                lemma_at_sbe32(b, q + 4, 0);
                lemma_at_sbe32(b, q + 8, h as int);
                lemma_at_sbe32(b, q + 12, w as int);
                lemma_at_index(b, q + 16, a4, 1);
                assert(b[q + 17] == 0);
                assert((0u8 & 2u8) == 0u8) by (bit_vector);
                let s = q + 18;
                assert(b.subrange(s, s + 4) == a5);
                lemma_at_be32(b, s + 4, 0);
                let t = s + 8;
                lemma_read_packed_plane(b, t, m, w, h);
                assert(side(0, w as int) == w);
                assert(side(0, h as int) == h);
            }
        },
    }
}

proof fn lemma_units_be_index(u: Seq<u16>, i: int)
    requires
        0 <= i < u.len(),
    ensures
        units_be(u).len() == 2 * u.len(),
        units_be(u)[2 * i] == (u[i] / 256) as u8,
        units_be(u)[2 * i + 1] == (u[i] % 256) as u8,
    decreases u.len(),
{
    lemma_units_be_len(u);
    if i < u.len() - 1 {
        lemma_units_be_index(u.drop_last(), i);
    }
}

proof fn lemma_units_be_len(u: Seq<u16>)
    ensures
        units_be(u).len() == 2 * u.len(),
    decreases u.len(),
{
    if u.len() > 0 {
        lemma_units_be_len(u.drop_last());
    }
}

/// Code units written big-endian read back as the same code units.
proof fn lemma_units_round_trip(u: Seq<u16>)
    ensures
        units_be(u).len() == 2 * u.len(),
        utf16_units(units_be(u)) == u,
{
    lemma_units_be_len(u);
    let s = units_be(u);
    assert forall|i: int| 0 <= i < u.len() implies #[trigger] utf16_units(s)[i] == u[i] by {
        lemma_units_be_index(u, i);
    }
    assert(utf16_units(s) =~= u);
}

/// A written name field is skipped over whole.
proof fn lemma_read_pascal(b: Seq<u8>, p: int, name: Seq<char>)
    requires
        at(b, p, spec_pascal(name)),
    ensures
        spec_read_pascal(b, p) is Ok,
        spec_read_pascal(b, p)->Ok_0.1 == p + spec_pascal(name).len(),
{
    let bytes = vstd::utf8::encode_utf8(name);
    let n = if bytes.len() < 255 {
        bytes.len()
    } else {
        255
    };
    let nm = seq![n as u8] + bytes.take(n as int);
    assert(nm.len() == n + 1);
    lemma_at_index(b, p, spec_pascal(name), 0);
    assert(b[p] == n);
}

/// The section kind that a section number reads back as.
pub open spec fn section_kind(section: Option<u32>) -> LayerKind {
    match section {
        Some(v) => if v == 1 {
            LayerKind::GroupOpen
        } else if v == 2 {
            LayerKind::GroupClosed
        } else if v == 3 {
            LayerKind::Bounding
        } else {
            LayerKind::Pixel
        },
        None => LayerKind::Pixel,
    }
}

/// The section block of a folder record.
pub open spec fn section_block(section: Option<u32>) -> Seq<u8> {
    match section {
        Some(v) => tag(0x6c, 0x73, 0x63, 0x74) + u32be(4) + u32be(v),
        None => Seq::empty(),
    }
}

/// The UTF-16 name block and the section block at the end of the extra data.
pub open spec fn name_blocks(name: Seq<char>, section: Option<u32>) -> Seq<u8> {
    let units = spec_utf16(name);
    tag(0x6c, 0x75, 0x6e, 0x69) + u32be((units.len() * 2 + 4) as u32) + u32be(units.len() as u32)
        + units_be(units) + section_block(section)
}

proof fn lemma_extra_parts(name: Seq<char>, section: Option<u32>, mask: Seq<u8>)
    ensures
        spec_extra_bytes(name, section, mask) == mask + u32be(0) + spec_pascal(name) + name_blocks(
            name,
            section,
        ),
{
    assert(spec_extra_bytes(name, section, mask) =~= mask + u32be(0) + spec_pascal(name)
        + name_blocks(name, section));
}

/// The name and section blocks read back as the UTF-16 name and the section
/// kind.
proof fn lemma_read_name_blocks(b: Seq<u8>, p: int, name: Seq<char>, section: Option<u32>, pname: Seq<char>)
    requires
        at(b, p, name_blocks(name, section)),
        spec_utf16(name).len() * 2 + 4 <= u32::MAX,
    ensures
        spec_read_extra(b, p, p + name_blocks(name, section).len(), pname, LayerKind::Pixel) == (
            utf16_lossy(spec_utf16(name)),
            section_kind(section),
        ),
{
    let units = spec_utf16(name);
    let n = units.len();
    let t1 = tag(0x6c, 0x75, 0x6e, 0x69);
    let l1 = u32be((n * 2 + 4) as u32);
    let l2 = u32be(n as u32);
    let ub = units_be(units);
    let sect = section_block(section);
    let xe = p + name_blocks(name, section).len();
    lemma_units_round_trip(units);
    lemma_at_split(b, p, t1 + l1 + l2 + ub, sect);
    lemma_at_split(b, p, t1 + l1 + l2, ub);
    lemma_at_split(b, p, t1 + l1, l2);
    lemma_at_split(b, p, t1, l1);
    lemma_at_be32(b, p + 4, (n * 2 + 4) as u32);
    lemma_at_be32(b, p + 8, n as u32);
    assert(b.subrange(p, p + 4) == t1);
    let q2 = p + 12;
    assert(b.subrange(q2, q2 + 2 * n) == ub);
    let nm = utf16_lossy(units);
    let e = q2 + 2 * n;
    match section {
        None => {
            assert(e == xe);
            assert(spec_read_extra(b, e, xe, nm, LayerKind::Pixel) == (nm, LayerKind::Pixel));
        },
        Some(v) => {
            let t2 = tag(0x6c, 0x73, 0x63, 0x74);
            lemma_at_split(b, e, t2 + u32be(4), u32be(v));
            lemma_at_split(b, e, t2, u32be(4));
            lemma_at_be32(b, e + 4, 4);
            lemma_at_be32(b, e + 8, v);
            assert(b.subrange(e, e + 4) == t2);
            assert(t2[1] != t1[1]);
            assert(b.subrange(e, e + 4) != t1);
            assert(e + 12 == xe);
            assert(spec_read_extra(b, xe, xe, nm, section_kind(section)) == (nm, section_kind(section)));
            assert(spec_read_extra(b, e, xe, nm, LayerKind::Pixel) == (nm, section_kind(section)));
        },
    }
}

/// A frame grown over the rows above `ylim`: either still empty, or inside
/// the canvas.
pub open spec fn rect_ok(acc: (int, int, int, int), w: int, ylim: int) -> bool {
    &&& acc.2 < 0 ==> acc == (0x7fff_ffffint, 0x7fff_ffffint, -1int, -1int)
    &&& acc.2 >= 0 ==> 0 <= acc.0 < acc.2 <= w && 0 <= acc.1 < acc.3 <= ylim
}

proof fn lemma_rect_row_ok(rgba: Seq<u8>, w: nat, y: int, x: int, acc: (int, int, int, int))
    requires
        0 <= y,
        0 <= x <= w,
        w < 0x7fff_ffff,
        y + 1 < 0x7fff_ffff,
        rect_ok(acc, w as int, y + 1),
    ensures
        rect_ok(rect_row(rgba, w, y, x, acc), w as int, y + 1),
    decreases w - x,
{
    if x < w {
        let acc2 = if rgba[(y * w + x) * 4 + 3] != 0 {
            crate::psd_write::rect_step(acc, x, y)
        } else {
            acc
        };
        lemma_rect_row_ok(rgba, w, y, x + 1, acc2);
    }
}

proof fn lemma_rect_rows_ok(rgba: Seq<u8>, w: nat, h: nat, y: int, acc: (int, int, int, int))
    requires
        0 <= y <= h,
        w < 0x7fff_ffff,
        h < 0x7fff_ffff,
        rect_ok(acc, w as int, y),
    ensures
        rect_ok(rect_rows(rgba, w, h, y, acc), w as int, h as int),
    decreases h - y,
{
    if y < h {
        lemma_rect_row_ok(rgba, w, y, 0, acc);
        lemma_rect_rows_ok(rgba, w, h, y + 1, rect_row(rgba, w, y, 0, acc));
    }
}

/// The tight frame of a layer lies inside the canvas and is never empty.
pub(crate) proof fn lemma_tight_rect_bounds(w: nat, h: nat, rgba: Seq<u8>)
    requires
        1 <= w <= MAX_SIDE,
        1 <= h <= MAX_SIDE,
    ensures
        0 <= spec_tight_rect(w, h, rgba).0 < spec_tight_rect(w, h, rgba).2 <= w,
        0 <= spec_tight_rect(w, h, rgba).1 < spec_tight_rect(w, h, rgba).3 <= h,
{
    lemma_rect_rows_ok(rgba, w, h, 0, (0x7fff_ffff, 0x7fff_ffff, -1, -1));
}

/// The extra data of a record: its mask reads back, the blending ranges
/// are empty, the name field is skipped and the name and section blocks
/// read back.
proof fn lemma_read_extra_bytes(
    b: Seq<u8>,
    r: int,
    w: nat,
    h: nat,
    name: Seq<char>,
    section: Option<u32>,
    mask: Option<Seq<u8>>,
)
    requires
        1 <= w <= MAX_SIDE,
        1 <= h <= MAX_SIDE,
        at(b, r, spec_extra_bytes(name, section, spec_mask_bytes(w, h, mask))),
        spec_extra_bytes(name, section, spec_mask_bytes(w, h, mask)).len() <= u32::MAX,
    ensures
        ({
            let mb = spec_mask_bytes(w, h, mask);
            let r2 = r + mb.len();
            let xe = r + spec_extra_bytes(name, section, mb).len();
            &&& spec_read_mask(b, r) == Ok::<(Option<MaskModel>, int), PsdError>(
                (read_back_mask(w, h, mask), r2),
            )
            &&& r2 + 4 <= b.len()
            &&& be32(b, r2) == 0
            &&& r2 + 4 <= xe
            &&& spec_read_pascal(b, r2 + 4) is Ok
            &&& spec_read_extra(
                b,
                spec_read_pascal(b, r2 + 4)->Ok_0.1,
                xe,
                spec_read_pascal(b, r2 + 4)->Ok_0.0,
                LayerKind::Pixel,
            ) == (utf16_lossy(spec_utf16(name)), section_kind(section))
        }),
{
    let mb = spec_mask_bytes(w, h, mask);
    let pas = spec_pascal(name);
    let nb = name_blocks(name, section);
    lemma_extra_parts(name, section, mb);
    lemma_at_split(b, r, mb + u32be(0) + pas, nb);
    lemma_at_split(b, r, mb + u32be(0), pas);
    lemma_at_split(b, r, mb, u32be(0));
    lemma_read_mask_bytes(b, r, w, h, mask);
    let r2 = r + mb.len();
    lemma_at_be32(b, r2, 0);
    lemma_read_pascal(b, r2 + 4, name);
    let r4 = r2 + 4 + pas.len();
    lemma_units_be_len(spec_utf16(name));
    lemma_read_name_blocks(b, r4, name, section, spec_read_pascal(b, r2 + 4)->Ok_0.0);
}

/// The four channel planes of a pixel record, alpha first.
pub open spec fn record_planes(w: nat, rgba: Seq<u8>, r: (int, int, int, int)) -> Seq<(i16, Seq<u8>)> {
    let rw = (r.2 - r.0) as nat;
    let rh = (r.3 - r.1) as nat;
    seq![
        (-1i16, crop_plane(rgba, w, r.0, r.1, rw, rh, 3)),
        (0i16, crop_plane(rgba, w, r.0, r.1, rw, rh, 0)),
        (1i16, crop_plane(rgba, w, r.0, r.1, rw, rh, 1)),
        (2i16, crop_plane(rgba, w, r.0, r.1, rw, rh, 2)),
    ]
}

/// The channel data of a pixel record reads back as its four planes.
proof fn lemma_read_record_planes(b: Seq<u8>, p: int, c: int, w: nat, rgba: Seq<u8>, r: (int, int, int, int))
    requires
        1 <= r.2 - r.0 <= MAX_SIDE,
        1 <= r.3 - r.1 <= MAX_SIDE,
        channel_ids(b, c, 4) == seq![-1i16, 0i16, 1i16, 2i16],
        ({
            let rw = (r.2 - r.0) as nat;
            let rh = (r.3 - r.1) as nat;
            at(
                b,
                p,
                spec_plane_rows(crop_plane(rgba, w, r.0, r.1, rw, rh, 3), rw, rh) + spec_plane_rows(
                    crop_plane(rgba, w, r.0, r.1, rw, rh, 0),
                    rw,
                    rh,
                ) + spec_plane_rows(crop_plane(rgba, w, r.0, r.1, rw, rh, 1), rw, rh)
                    + spec_plane_rows(crop_plane(rgba, w, r.0, r.1, rw, rh, 2), rw, rh),
            )
        }),
    ensures
        ({
            let rw = (r.2 - r.0) as nat;
            let rh = (r.3 - r.1) as nat;
            let da = spec_plane_rows(crop_plane(rgba, w, r.0, r.1, rw, rh, 3), rw, rh);
            let dr = spec_plane_rows(crop_plane(rgba, w, r.0, r.1, rw, rh, 0), rw, rh);
            let dg = spec_plane_rows(crop_plane(rgba, w, r.0, r.1, rw, rh, 1), rw, rh);
            let db = spec_plane_rows(crop_plane(rgba, w, r.0, r.1, rw, rh, 2), rw, rh);
            spec_read_layer_planes(b, p, channel_ids(b, c, 4), 0, rw as int, rh as int, Seq::empty())
                == Ok::<(Seq<(i16, Seq<u8>)>, int), PsdError>(
                (record_planes(w, rgba, r), p + da.len() + dr.len() + dg.len() + db.len()),
            )
        }),
{
    let rw = (r.2 - r.0) as nat;
    let rh = (r.3 - r.1) as nat;
    let ca = crop_plane(rgba, w, r.0, r.1, rw, rh, 3);
    let cr = crop_plane(rgba, w, r.0, r.1, rw, rh, 0);
    let cg = crop_plane(rgba, w, r.0, r.1, rw, rh, 1);
    let cb = crop_plane(rgba, w, r.0, r.1, rw, rh, 2);
    let da = spec_plane_rows(ca, rw, rh);
    let dr = spec_plane_rows(cr, rw, rh);
    let dg = spec_plane_rows(cg, rw, rh);
    let db = spec_plane_rows(cb, rw, rh);
    let ids = channel_ids(b, c, 4);
    lemma_at_split(b, p, da + dr + dg, db);
    lemma_at_split(b, p, da + dr, dg);
    lemma_at_split(b, p, da, dr);
    let p1 = p + da.len();
    let p2 = p1 + dr.len();
    let p3 = p2 + dg.len();
    let p4 = p3 + db.len();
    lemma_read_packed_plane(b, p, ca, rw, rh);
    lemma_read_packed_plane(b, p1, cr, rw, rh);
    lemma_read_packed_plane(b, p2, cg, rw, rh);
    lemma_read_packed_plane(b, p3, cb, rw, rh);
    let a1 = seq![(-1i16, ca)];
    let a2 = a1.push((0i16, cr));
    let a3 = a2.push((1i16, cg));
    let a4 = a3.push((2i16, cb));
    assert(a4 =~= record_planes(w, rgba, r));
    assert(Seq::<(i16, Seq<u8>)>::empty().push((-1i16, ca)) =~= a1);
    assert(spec_read_layer_planes(b, p4, ids, 4, rw as int, rh as int, a4) == Ok::<
        (Seq<(i16, Seq<u8>)>, int),
        PsdError,
    >((a4, p4)));
    assert(spec_read_layer_planes(b, p3, ids, 3, rw as int, rh as int, a3) == Ok::<
        (Seq<(i16, Seq<u8>)>, int),
        PsdError,
    >((a4, p4)));
    assert(spec_read_layer_planes(b, p2, ids, 2, rw as int, rh as int, a2) == Ok::<
        (Seq<(i16, Seq<u8>)>, int),
        PsdError,
    >((a4, p4)));
    assert(spec_read_layer_planes(b, p1, ids, 1, rw as int, rh as int, a1) == Ok::<
        (Seq<(i16, Seq<u8>)>, int),
        PsdError,
    >((a4, p4)));
}

proof fn lemma_at_sbe16(b: Seq<u8>, p: int, v: u16)
    requires
        at(b, p, u16be(v)),
    ensures
        sbe16(b, p) == (if v >= 32768 {
            v - 65536
        } else {
            v as int
        }),
{
    lemma_at_be16(b, p, v);
}

/// What a pixel record reads back as: the layer's name, its
/// settings, its tight frame with the four cropped planes, and its mask.
pub open spec fn read_back_pixel(w: nat, h: nat, l: OutLayerModel) -> LayerModel {
    let r = spec_tight_rect(w, h, l.rgba);
    LayerModel {
        name: l.name,
        kind: LayerKind::Pixel,
        visible: l.visible,
        opacity: l.opacity,
        blend: l.blend,
        blend_key: spec_blend_key(l.blend),
        clipped: false,
        left: r.0 as i32,
        top: r.1 as i32,
        width: (r.2 - r.0) as nat,
        height: (r.3 - r.1) as nat,
        planes: record_planes(w, l.rgba, r),
        mask: read_back_mask(w, h, l.mask),
    }
}

proof fn lemma_frame_fields(b: Seq<u8>, p: int, r: (int, int, int, int))
    requires
        0 <= r.0 < 0x8000_0000,
        0 <= r.1 < 0x8000_0000,
        0 <= r.2 < 0x8000_0000,
        0 <= r.3 < 0x8000_0000,
        at(b, p, record_frame(r)),
    ensures
        record_frame(r).len() == 18,
        sbe32(b, p) == r.1,
        sbe32(b, p + 4) == r.0,
        sbe32(b, p + 8) == r.3,
        sbe32(b, p + 12) == r.2,
        be16(b, p + 16) == 4,
{
    reveal(record_frame);
    let f1 = u32be(r.1 as u32);
    let f2 = u32be(r.0 as u32);
    let f3 = u32be(r.3 as u32);
    let f4 = u32be(r.2 as u32);
    lemma_at_split(b, p, f1 + f2 + f3 + f4, u16be(4));
    lemma_at_split(b, p, f1 + f2 + f3, f4);
    lemma_at_split(b, p, f1 + f2, f3);
    lemma_at_split(b, p, f1, f2);
    lemma_at_sbe32(b, p, r.1);
    lemma_at_sbe32(b, p + 4, r.0);
    lemma_at_sbe32(b, p + 8, r.3);
    lemma_at_sbe32(b, p + 12, r.2);
    lemma_at_be16(b, p + 16, 4);
}

proof fn lemma_channel_fields(b: Seq<u8>, c: int, la: nat, lr: nat, lg: nat, lb: nat)
    requires
        at(b, c, record_channels(la, lr, lg, lb)),
    ensures
        record_channels(la, lr, lg, lb).len() == 24,
        channel_ids(b, c, 4) == seq![-1i16, 0i16, 1i16, 2i16],
{
    reveal(record_channels);
    let c0 = u16be(0xffff);
    let c1 = u32be(la as u32);
    let c2 = u16be(0);
    let c3 = u32be(lr as u32);
    let c4 = u16be(1);
    let c5 = u32be(lg as u32);
    let c6 = u16be(2);
    let c7 = u32be(lb as u32);
    lemma_at_split(b, c, c0 + c1 + c2 + c3 + c4 + c5 + c6, c7);
    lemma_at_split(b, c, c0 + c1 + c2 + c3 + c4 + c5, c6);
    lemma_at_split(b, c, c0 + c1 + c2 + c3 + c4, c5);
    lemma_at_split(b, c, c0 + c1 + c2 + c3, c4);
    lemma_at_split(b, c, c0 + c1 + c2, c3);
    lemma_at_split(b, c, c0 + c1, c2);
    lemma_at_split(b, c, c0, c1);
    lemma_at_sbe16(b, c, 0xffff);
    lemma_at_sbe16(b, c + 6, 0);
    lemma_at_sbe16(b, c + 12, 1);
    lemma_at_sbe16(b, c + 18, 2);
    assert(channel_ids(b, c, 4) =~= seq![-1i16, 0i16, 1i16, 2i16]) by {
        assert(channel_ids(b, c, 4)[0] == sbe16(b, c) as i16);
        assert(channel_ids(b, c, 4)[1] == sbe16(b, c + 6) as i16);
        assert(channel_ids(b, c, 4)[2] == sbe16(b, c + 12) as i16);
        assert(channel_ids(b, c, 4)[3] == sbe16(b, c + 18) as i16);
    }
}

proof fn lemma_settings_fields(b: Seq<u8>, q: int, key: Seq<u8>, opacity: u8, flags: u8)
    requires
        key.len() == 4,
        at(b, q, record_settings(key, opacity, flags)),
    ensures
        record_settings(key, opacity, flags).len() == 12,
        b.subrange(q + 4, q + 8) == key,
        b[q + 8] == opacity,
        b[q + 9] == 0,
        b[q + 10] == flags,
{
    reveal(record_settings);
    let s0 = tag(0x38, 0x42, 0x49, 0x4d);
    let s2 = seq![opacity, 0u8, flags, 0u8];
    lemma_at_split(b, q, s0 + key, s2);
    lemma_at_split(b, q, s0, key);
    lemma_at_index(b, q + 8, s2, 0);
    lemma_at_index(b, q + 8, s2, 1);
    lemma_at_index(b, q + 8, s2, 2);
}

/// The fixed fields at the head of a pixel record.
#[verifier::rlimit(20)]
proof fn lemma_pixel_record_head(b: Seq<u8>, p: int, w: nat, h: nat, l: OutLayerModel)
    requires
        1 <= w <= MAX_SIDE,
        1 <= h <= MAX_SIDE,
        at(b, p, spec_pixel_record(w, h, l)),
        spec_pixel_record(w, h, l).len() <= u32::MAX,
    ensures
        ({
            let r = spec_tight_rect(w, h, l.rgba);
            let rw = (r.2 - r.0) as nat;
            let rh = (r.3 - r.1) as nat;
            let da = spec_plane_rows(crop_plane(l.rgba, w, r.0, r.1, rw, rh, 3), rw, rh);
            let dr = spec_plane_rows(crop_plane(l.rgba, w, r.0, r.1, rw, rh, 0), rw, rh);
            let dg = spec_plane_rows(crop_plane(l.rgba, w, r.0, r.1, rw, rh, 1), rw, rh);
            let db = spec_plane_rows(crop_plane(l.rgba, w, r.0, r.1, rw, rh, 2), rw, rh);
            let extra = spec_extra_bytes(l.name, None, spec_mask_bytes(w, h, l.mask));
            let q = p + 42;
            &&& spec_pixel_record(w, h, l).len() == 58 + extra.len() + da.len() + dr.len() + dg.len()
                + db.len()
            &&& 0 <= r.0 < r.2 <= w
            &&& 0 <= r.1 < r.3 <= h
            &&& sbe32(b, p) == r.1
            &&& sbe32(b, p + 4) == r.0
            &&& sbe32(b, p + 8) == r.3
            &&& sbe32(b, p + 12) == r.2
            &&& be16(b, p + 16) == 4
            &&& channel_ids(b, p + 18, 4) == seq![-1i16, 0i16, 1i16, 2i16]
            &&& b.subrange(q + 4, q + 8) == spec_blend_key(l.blend)
            &&& b[q + 8] == l.opacity
            &&& b[q + 9] == 0
            &&& b[q + 10] == (if l.visible {
                0u8
            } else {
                2u8
            })
            &&& be32(b, q + 12) == extra.len()
            &&& at(b, q + 16, extra)
            &&& at(b, q + 16 + extra.len(), da + dr + dg + db)
        }),
{
    let r = spec_tight_rect(w, h, l.rgba);
    lemma_tight_rect_bounds(w, h, l.rgba);
    let rw = (r.2 - r.0) as nat;
    let rh = (r.3 - r.1) as nat;
    let da = spec_plane_rows(crop_plane(l.rgba, w, r.0, r.1, rw, rh, 3), rw, rh);
    let dr = spec_plane_rows(crop_plane(l.rgba, w, r.0, r.1, rw, rh, 0), rw, rh);
    let dg = spec_plane_rows(crop_plane(l.rgba, w, r.0, r.1, rw, rh, 1), rw, rh);
    let db = spec_plane_rows(crop_plane(l.rgba, w, r.0, r.1, rw, rh, 2), rw, rh);
    let key = spec_blend_key(l.blend);
    let flags: u8 = if l.visible {
        0u8
    } else {
        2u8
    };
    let extra = spec_extra_bytes(l.name, None, spec_mask_bytes(w, h, l.mask));
    let fr = record_frame(r);
    let ch = record_channels(da.len(), dr.len(), dg.len(), db.len());
    let st = record_settings(key, l.opacity, flags);
    let el = u32be(extra.len() as u32);
    let head = fr + ch + st + el + extra;
    let data = da + dr + dg + db;
    assert(spec_pixel_record(w, h, l) =~= head + data);
    lemma_at_split(b, p, head, data);
    lemma_at_split(b, p, fr + ch + st + el, extra);
    lemma_at_split(b, p, fr + ch + st, el);
    lemma_at_split(b, p, fr + ch, st);
    lemma_at_split(b, p, fr, ch);
    lemma_frame_fields(b, p, r);
    lemma_channel_fields(b, p + 18, da.len(), dr.len(), dg.len(), db.len());
    lemma_settings_fields(b, p + 42, key, l.opacity, flags);
    lemma_at_be32(b, p + 54, extra.len() as u32);
}

/// A pixel record reads back as `read_back_pixel`, and the next record
/// starts right after it.
pub(crate) proof fn lemma_read_pixel_record(b: Seq<u8>, p: int, w: nat, h: nat, l: OutLayerModel)
    requires
        1 <= w <= MAX_SIDE,
        1 <= h <= MAX_SIDE,
        at(b, p, spec_pixel_record(w, h, l)),
        spec_pixel_record(w, h, l).len() <= u32::MAX,
    ensures
        spec_pixel_record(w, h, l).len() > 0,
        spec_read_layer(b, p) == Ok::<(LayerModel, int), PsdError>(
            (read_back_pixel(w, h, l), p + spec_pixel_record(w, h, l).len()),
        ),
{
    let r = spec_tight_rect(w, h, l.rgba);
    let extra = spec_extra_bytes(l.name, None, spec_mask_bytes(w, h, l.mask));
    lemma_pixel_record_head(b, p, w, h, l);
    lemma_utf16_round_trip(l.name);
    lemma_blend_key_round_trip(l.blend);
    assert((0u8 & 2u8) == 0u8) by (bit_vector);
    assert((2u8 & 2u8) == 2u8) by (bit_vector);
    let rr = p + 58;
    lemma_read_extra_bytes(b, rr, w, h, l.name, None, l.mask);
    lemma_read_record_planes(b, rr + extra.len(), p + 18, w, l.rgba, r);
    assert(side(r.0, r.2) == r.2 - r.0);
    assert(side(r.1, r.3) == r.3 - r.1);
    reveal(spec_read_layer);
}

/// The name of a folder record: the folder's name, or the layer's own name
/// when it has no folder; a bounding record is called "Группа".
pub open spec fn group_record_name(ls: Seq<OutLayerModel>, layer: Option<int>) -> Seq<char> {
    match layer {
        Some(i) => match ls[i].group {
            Some(g) => g,
            None => ls[i].name,
        },
        None => "Группа"@,
    }
}

/// The mask written with a folder record.
pub open spec fn group_record_mask(ls: Seq<OutLayerModel>, layer: Option<int>) -> Option<Seq<u8>> {
    match layer {
        Some(i) => ls[i].mask,
        None => None,
    }
}

/// What a folder record reads back as: a bounding marker, or an open folder
/// header (the section written for open and closed folders alike), with the
/// header layer's settings and mask and no pixels.
pub open spec fn read_back_group(
    w: nat,
    h: nat,
    ls: Seq<OutLayerModel>,
    kind: LayerKind,
    layer: Option<int>,
) -> LayerModel {
    let blend = match layer {
        Some(i) => ls[i].blend,
        None => BlendMode::Normal,
    };
    LayerModel {
        name: group_record_name(ls, layer),
        kind: if kind == LayerKind::Bounding {
            LayerKind::Bounding
        } else {
            LayerKind::GroupOpen
        },
        visible: match layer {
            Some(i) => ls[i].visible,
            None => false,
        },
        opacity: match layer {
            Some(i) => ls[i].opacity,
            None => 255,
        },
        blend,
        blend_key: spec_blend_key(blend),
        clipped: false,
        left: 0,
        top: 0,
        width: 0,
        height: 0,
        planes: Seq::empty(),
        mask: read_back_mask(w, h, group_record_mask(ls, layer)),
    }
}

/// The fixed fields at the head of a folder record.
#[verifier::rlimit(20)]
proof fn lemma_group_record_head(
    b: Seq<u8>,
    p: int,
    w: nat,
    h: nat,
    ls: Seq<OutLayerModel>,
    kind: LayerKind,
    layer: Option<int>,
)
    requires
        at(b, p, spec_group_record(w, h, ls, kind, layer)),
        spec_group_record(w, h, ls, kind, layer).len() <= u32::MAX,
    ensures
        ({
            let head: u32 = if kind == LayerKind::Bounding {
                3
            } else {
                1
            };
            let extra = spec_extra_bytes(
                group_record_name(ls, layer),
                Some(head),
                spec_mask_bytes(w, h, group_record_mask(ls, layer)),
            );
            let rb = read_back_group(w, h, ls, kind, layer);
            let q = p + 18;
            &&& spec_group_record(w, h, ls, kind, layer).len() == 34 + extra.len()
            &&& sbe32(b, p) == 0
            &&& sbe32(b, p + 4) == 0
            &&& sbe32(b, p + 8) == 0
            &&& sbe32(b, p + 12) == 0
            &&& be16(b, p + 16) == 0
            &&& b.subrange(q + 4, q + 8) == rb.blend_key
            &&& b[q + 8] == rb.opacity
            &&& b[q + 9] == 0
            &&& b[q + 10] == (if rb.visible {
                0u8
            } else {
                2u8
            })
            &&& be32(b, q + 12) == extra.len()
            &&& at(b, q + 16, extra)
        }),
{
    let head: u32 = if kind == LayerKind::Bounding {
        3
    } else {
        1
    };
    let name = group_record_name(ls, layer);
    let mb = spec_mask_bytes(w, h, group_record_mask(ls, layer));
    let extra = spec_extra_bytes(name, Some(head), mb);
    let rb = read_back_group(w, h, ls, kind, layer);
    let flags: u8 = if rb.visible {
        0u8
    } else {
        2u8
    };
    let st = record_settings(rb.blend_key, rb.opacity, flags);
    let el = u32be(extra.len() as u32);
    assert(spec_group_record(w, h, ls, kind, layer) =~= zeros(16) + u16be(0) + st + el + extra);
    lemma_at_split(b, p, zeros(16) + u16be(0) + st + el, extra);
    lemma_at_split(b, p, zeros(16) + u16be(0) + st, el);
    lemma_at_split(b, p, zeros(16) + u16be(0), st);
    lemma_at_split(b, p, zeros(16), u16be(0));
    assert(zeros(16) =~= u32be(0) + u32be(0) + u32be(0) + u32be(0));
    lemma_at_split(b, p, u32be(0) + u32be(0) + u32be(0), u32be(0));
    lemma_at_split(b, p, u32be(0) + u32be(0), u32be(0));
    lemma_at_split(b, p, u32be(0), u32be(0));
    lemma_at_sbe32(b, p, 0);
    lemma_at_sbe32(b, p + 4, 0);
    lemma_at_sbe32(b, p + 8, 0);
    lemma_at_sbe32(b, p + 12, 0);
    lemma_at_be16(b, p + 16, 0);
    lemma_settings_fields(b, p + 18, rb.blend_key, rb.opacity, flags);
    lemma_at_be32(b, p + 30, extra.len() as u32);
}

/// A folder record reads back as `read_back_group`, and the next record
/// starts right after it.
pub(crate) proof fn lemma_read_group_record(
    b: Seq<u8>,
    p: int,
    w: nat,
    h: nat,
    ls: Seq<OutLayerModel>,
    kind: LayerKind,
    layer: Option<int>,
)
    requires
        1 <= w <= MAX_SIDE,
        1 <= h <= MAX_SIDE,
        at(b, p, spec_group_record(w, h, ls, kind, layer)),
        spec_group_record(w, h, ls, kind, layer).len() <= u32::MAX,
    ensures
        spec_group_record(w, h, ls, kind, layer).len() > 0,
        spec_read_layer(b, p) == Ok::<(LayerModel, int), PsdError>(
            (read_back_group(w, h, ls, kind, layer), p + spec_group_record(w, h, ls, kind, layer).len()),
        ),
{
    let head: u32 = if kind == LayerKind::Bounding {
        3
    } else {
        1
    };
    let name = group_record_name(ls, layer);
    let extra = spec_extra_bytes(name, Some(head), spec_mask_bytes(w, h, group_record_mask(ls, layer)));
    let rb = read_back_group(w, h, ls, kind, layer);
    lemma_group_record_head(b, p, w, h, ls, kind, layer);
    lemma_utf16_round_trip(name);
    lemma_blend_key_round_trip(rb.blend);
    assert((0u8 & 2u8) == 0u8) by (bit_vector);
    assert((2u8 & 2u8) == 2u8) by (bit_vector);
    lemma_read_extra_bytes(b, p + 34, w, h, name, Some(head), group_record_mask(ls, layer));
    assert(channel_ids(b, p + 18, 0) =~= Seq::<i16>::empty());
    assert(side(0, 0) == 0);
    reveal(spec_read_layer);
}

/// What one written record reads back as.
pub open spec fn read_back_record(
    w: nat,
    h: nat,
    ls: Seq<OutLayerModel>,
    rec: (LayerKind, Option<int>),
) -> LayerModel {
    match rec {
        (LayerKind::Pixel, Some(i)) => read_back_pixel(w, h, ls[i]),
        (k, l) => read_back_group(w, h, ls, k, l),
    }
}

proof fn lemma_read_record(
    b: Seq<u8>,
    p: int,
    w: nat,
    h: nat,
    ls: Seq<OutLayerModel>,
    rec: (LayerKind, Option<int>),
)
    requires
        1 <= w <= MAX_SIDE,
        1 <= h <= MAX_SIDE,
        at(b, p, spec_record(w, h, ls, rec)),
        spec_record(w, h, ls, rec).len() <= u32::MAX,
    ensures
        spec_record(w, h, ls, rec).len() > 0,
        spec_read_layer(b, p) == Ok::<(LayerModel, int), PsdError>(
            (read_back_record(w, h, ls, rec), p + spec_record(w, h, ls, rec).len()),
        ),
{
    match rec {
        (LayerKind::Pixel, Some(i)) => {
            lemma_read_pixel_record(b, p, w, h, ls[i]);
        },
        (k, l) => {
            lemma_read_group_record(b, p, w, h, ls, k, l);
        },
    }
}

proof fn lemma_body_split(
    w: nat,
    h: nat,
    ls: Seq<OutLayerModel>,
    recs: Seq<(LayerKind, Option<int>)>,
    n: int,
    k: int,
)
    requires
        0 <= k <= n,
    ensures
        spec_body(w, h, ls, recs, k).len() <= spec_body(w, h, ls, recs, n).len(),
        spec_body(w, h, ls, recs, n) == spec_body(w, h, ls, recs, k) + spec_body(
            w,
            h,
            ls,
            recs,
            n,
        ).subrange(spec_body(w, h, ls, recs, k).len() as int, spec_body(w, h, ls, recs, n).len() as int),
    decreases n,
{
    let bn = spec_body(w, h, ls, recs, n);
    let bk = spec_body(w, h, ls, recs, k);
    if k < n {
        lemma_body_split(w, h, ls, recs, n - 1, k);
    }
    assert(bn =~= bk + bn.subrange(bk.len() as int, bn.len() as int));
}

/// Records `k..` of a written body read back one after another.
proof fn lemma_read_records(
    b: Seq<u8>,
    start: int,
    li_end: int,
    w: nat,
    h: nat,
    ls: Seq<OutLayerModel>,
    recs: Seq<(LayerKind, Option<int>)>,
    k: int,
)
    requires
        1 <= w <= MAX_SIDE,
        1 <= h <= MAX_SIDE,
        0 <= k <= recs.len(),
        at(b, start, spec_body(w, h, ls, recs, recs.len() as int)),
        start + spec_body(w, h, ls, recs, recs.len() as int).len() <= li_end,
        spec_body(w, h, ls, recs, recs.len() as int).len() <= u32::MAX,
    ensures
        spec_read_layer_list(
            b,
            start + spec_body(w, h, ls, recs, k).len(),
            li_end,
            recs.len() as int,
            Seq::new(k as nat, |j: int| read_back_record(w, h, ls, recs[j])),
        ) == Ok::<Seq<LayerModel>, PsdError>(
            Seq::new(recs.len(), |j: int| read_back_record(w, h, ls, recs[j])),
        ),
    decreases recs.len() - k,
{
    let n = recs.len() as int;
    let acc = Seq::new(k as nat, |j: int| read_back_record(w, h, ls, recs[j]));
    if k == n {
        assert(acc =~= Seq::new(recs.len(), |j: int| read_back_record(w, h, ls, recs[j])));
    } else {
        let bn = spec_body(w, h, ls, recs, n);
        let bk = spec_body(w, h, ls, recs, k);
        let b1 = spec_body(w, h, ls, recs, k + 1);
        let rec = spec_record(w, h, ls, recs[k]);
        lemma_body_split(w, h, ls, recs, n, k + 1);
        lemma_at_split(b, start, b1, bn.subrange(b1.len() as int, bn.len() as int));
        assert(b1 == bk + rec);
        lemma_at_split(b, start, bk, rec);
        lemma_read_record(b, start + bk.len(), w, h, ls, recs[k]);
        assert(acc.push(read_back_record(w, h, ls, recs[k])) =~= Seq::new(
            (k + 1) as nat,
            |j: int| read_back_record(w, h, ls, recs[j]),
        ));
        lemma_read_records(b, start, li_end, w, h, ls, recs, k + 1);
    }
}

proof fn lemma_header_fields(b: Seq<u8>, w: nat, h: nat)
    requires
        1 <= w <= MAX_SIDE,
        1 <= h <= MAX_SIDE,
        at(b, 0, spec_header(w, h, 4)),
    ensures
        spec_header(w, h, 4).len() == 26,
        b.subrange(0, 4) == psd_signature(),
        be16(b, 4) == 1,
        be16(b, 12) == 4,
        be32(b, 14) == h,
        be32(b, 18) == w,
        be16(b, 22) == 8,
        be16(b, 24) == 3,
{
    let t = tag(0x38, 0x42, 0x50, 0x53);
    let z = Seq::new(6, |i: int| 0u8);
    let hd = spec_header(w, h, 4);
    lemma_at_split(b, 0, t + u16be(1) + z + u16be(4) + u32be(h as u32) + u32be(w as u32) + u16be(8), u16be(3));
    lemma_at_split(b, 0, t + u16be(1) + z + u16be(4) + u32be(h as u32) + u32be(w as u32), u16be(8));
    lemma_at_split(b, 0, t + u16be(1) + z + u16be(4) + u32be(h as u32), u32be(w as u32));
    lemma_at_split(b, 0, t + u16be(1) + z + u16be(4), u32be(h as u32));
    lemma_at_split(b, 0, t + u16be(1) + z, u16be(4));
    lemma_at_split(b, 0, t + u16be(1), z);
    lemma_at_split(b, 0, t, u16be(1));
    lemma_at_be16(b, 4, 1);
    lemma_at_be16(b, 12, 4);
    lemma_at_be32(b, 14, h as u32);
    lemma_at_be32(b, 18, w as u32);
    lemma_at_be16(b, 22, 8);
    lemma_at_be16(b, 24, 3);
}

/// What every record of a layered PSD reads back as, bottom to top.
pub open spec fn read_back_layers(w: nat, h: nat, ls: Seq<OutLayerModel>) -> Seq<LayerModel> {
    let recs = spec_records(ls, 0, None, Seq::empty());
    Seq::new(recs.len(), |j: int| read_back_record(w, h, ls, recs[j]))
}

/// The records' bytes padded to an even length.
spec fn padded_len(n: nat) -> nat {
    if n % 2 == 1 {
        n + 1
    } else {
        n
    }
}

/// Where the blocks of a layered PSD stand.
#[verifier::rlimit(20)]
proof fn lemma_layered_layout(w: nat, h: nat, composite: Seq<u8>, ls: Seq<OutLayerModel>)
    requires
        1 <= w <= MAX_SIDE,
        1 <= h <= MAX_SIDE,
        spec_records(ls, 0, None, Seq::empty()).len() <= 4096,
        spec_write_layers(w, h, composite, ls).len() <= u32::MAX,
    ensures
        ({
            let b = spec_write_layers(w, h, composite, ls);
            let recs = spec_records(ls, 0, None, Seq::empty());
            let body = spec_body(w, h, ls, recs, recs.len() as int);
            let bl2 = padded_len(body.len());
            let lm_len = bl2 + 14;
            &&& b.len() == 38 + lm_len + spec_merged_section(composite, w, h).len()
            &&& b.subrange(0, 4) == psd_signature()
            &&& be16(b, 4) == 1
            &&& be16(b, 12) == 4
            &&& be32(b, 14) == h
            &&& be32(b, 18) == w
            &&& be16(b, 22) == 8
            &&& be16(b, 24) == 3
            &&& be32(b, 26) == 0
            &&& be32(b, 30) == 0
            &&& be32(b, 34) == lm_len
            &&& be32(b, 38) == bl2 + 2
            &&& sbe16(b, 42) == recs.len()
            &&& at(b, 44, body)
            &&& at(b, 38 + lm_len as int, spec_merged_section(composite, w, h))
        }),
{
    let b = spec_write_layers(w, h, composite, ls);
    let recs = spec_records(ls, 0, None, Seq::empty());
    let body = spec_body(w, h, ls, recs, recs.len() as int);
    let body2 = if body.len() % 2 == 1 {
        body.push(0)
    } else {
        body
    };
    let cnt = u16be(recs.len() as i16 as u16);
    let info = u32be((body2.len() + 2) as u32) + cnt + body2;
    let lm = info + u32be(0) + u32be(0);
    let hd = spec_header(w, h, 4);
    let ms = spec_merged_section(composite, w, h);
    let pre = hd + u32be(0) + u32be(0) + u32be(lm.len() as u32);
    assert(b == pre + lm + ms);
    assert(at(b, 0, b)) by {
        assert(b.subrange(0, b.len() as int) =~= b);
    }
    lemma_at_split(b, 0, pre + lm, ms);
    lemma_at_split(b, 0, pre, lm);
    lemma_at_split(b, 0, hd + u32be(0) + u32be(0), u32be(lm.len() as u32));
    lemma_at_split(b, 0, hd + u32be(0), u32be(0));
    lemma_at_split(b, 0, hd, u32be(0));
    lemma_header_fields(b, w, h);
    lemma_at_be32(b, 26, 0);
    lemma_at_be32(b, 30, 0);
    lemma_at_be32(b, 34, lm.len() as u32);
    lemma_at_split(b, 38, info + u32be(0), u32be(0));
    lemma_at_split(b, 38, info, u32be(0));
    lemma_at_split(b, 38, u32be((body2.len() + 2) as u32) + cnt, body2);
    lemma_at_split(b, 38, u32be((body2.len() + 2) as u32), cnt);
    lemma_at_be32(b, 38, (body2.len() + 2) as u32);
    lemma_at_sbe16(b, 42, recs.len() as i16 as u16);
    if body.len() % 2 == 1 {
        assert(body2 =~= body + seq![0u8]);
        lemma_at_split(b, 44, body, seq![0u8]);
    }
}

/// A file laid out as `lemma_layered_layout` describes reads back whole.
#[verifier::rlimit(20)]
proof fn lemma_read_layered_file(
    b: Seq<u8>,
    w: nat,
    h: nat,
    composite: Seq<u8>,
    ls: Seq<OutLayerModel>,
    recs: Seq<(LayerKind, Option<int>)>,
)
    requires
        1 <= w <= MAX_SIDE,
        1 <= h <= MAX_SIDE,
        composite.len() == w * h * 4,
        recs.len() <= 4096,
        b.len() <= u32::MAX,
        ({
            let body = spec_body(w, h, ls, recs, recs.len() as int);
            let bl2 = padded_len(body.len());
            let lm_len = bl2 + 14;
            &&& b.len() == 38 + lm_len + spec_merged_section(composite, w, h).len()
            &&& b.subrange(0, 4) == psd_signature()
            &&& be16(b, 4) == 1
            &&& be16(b, 12) == 4
            &&& be32(b, 14) == h
            &&& be32(b, 18) == w
            &&& be16(b, 22) == 8
            &&& be16(b, 24) == 3
            &&& be32(b, 26) == 0
            &&& be32(b, 30) == 0
            &&& be32(b, 34) == lm_len
            &&& be32(b, 38) == bl2 + 2
            &&& sbe16(b, 42) == recs.len()
            &&& at(b, 44, body)
            &&& at(b, 38 + lm_len as int, spec_merged_section(composite, w, h))
        }),
    ensures
        spec_read_file(b) == Ok::<FileModel, PsdError>(
            FileModel {
                width: w,
                height: h,
                layers: Seq::new(recs.len(), |j: int| read_back_record(w, h, ls, recs[j])),
                merged: ImageModel { width: w, height: h, pixels: composite },
            },
        ),
{
    let body = spec_body(w, h, ls, recs, recs.len() as int);
    let lm_len = padded_len(body.len()) + 14;
    let lm_end: int = 38 + lm_len as int;
    let li_end: int = 44 + padded_len(body.len()) as int;
    assert(Seq::new(0, |j: int| read_back_record(w, h, ls, recs[j])) =~= Seq::<LayerModel>::empty());
    assert(spec_body(w, h, ls, recs, 0).len() == 0);
    lemma_read_records(b, 44, li_end, w, h, ls, recs, 0);
    assert(spec_read_layers(b, 38, lm_end) == Ok::<Seq<LayerModel>, PsdError>(
        Seq::new(recs.len(), |j: int| read_back_record(w, h, ls, recs[j])),
    ));
    lemma_read_merged_section(b, lm_end, w, h, composite);
}

/// A PSD written by `write_layers` reads back with its size, one layer per
/// record in the written order (each plain layer with its name,
/// visibility, opacity, blend mode, tight frame, channel planes and mask;
/// each folder record with its name and section), and the merged image that
/// was written. The file's blocks carry 32-bit lengths and its layer count
/// is limited to 4096, hence the two bounds.
pub proof fn lemma_write_layers_read_round_trip(
    w: nat,
    h: nat,
    composite: Seq<u8>,
    ls: Seq<OutLayerModel>,
)
    requires
        1 <= w <= MAX_SIDE,
        1 <= h <= MAX_SIDE,
        composite.len() == w * h * 4,
        spec_records(ls, 0, None, Seq::empty()).len() <= 4096,
        spec_write_layers(w, h, composite, ls).len() <= u32::MAX,
    ensures
        spec_read_file(spec_write_layers(w, h, composite, ls)) == Ok::<FileModel, PsdError>(
            FileModel {
                width: w,
                height: h,
                layers: read_back_layers(w, h, ls),
                merged: ImageModel { width: w, height: h, pixels: composite },
            },
        ),
{
    lemma_layered_layout(w, h, composite, ls);
    lemma_read_layered_file(
        spec_write_layers(w, h, composite, ls),
        w,
        h,
        composite,
        ls,
        spec_records(ls, 0, None, Seq::empty()),
    );
}

/// The UTF-16 units of a string, from the front: the first character's,
/// then the rest's.
proof fn lemma_utf16_front(s: Seq<char>)
    requires
        s.len() > 0,
    ensures
        spec_utf16(s) == utf16_of(s[0]) + spec_utf16(s.drop_first()),
    decreases s.len(),
{
    if s.len() == 1 {
        assert(s.drop_last() =~= Seq::<char>::empty());
        assert(s.drop_first() =~= Seq::<char>::empty());
        assert(spec_utf16(s) =~= utf16_of(s[0]) + spec_utf16(s.drop_first()));
    } else {
        lemma_utf16_front(s.drop_last());
        assert(s.drop_last()[0] == s[0]);
        assert(s.drop_last().drop_first() =~= s.drop_first().drop_last());
        assert(s.drop_first().last() == s.last());
        assert(spec_utf16(s) =~= utf16_of(s[0]) + spec_utf16(s.drop_first()));
    }
}

/// Decoding the units of one character, followed by anything, gives that
/// character first.
proof fn lemma_lossy_char(c: char, rest: Seq<u16>)
    ensures
        utf16_lossy(utf16_of(c) + rest) == seq![c] + utf16_lossy(rest),
{
    let v = c as u32;
    let u = utf16_of(c) + rest;
    if v < 0x10000 {
        assert(u[0] == v as u16);
        assert(!is_high_surrogate(u[0]) && !is_low_surrogate(u[0]));
        assert(u.drop_first() =~= rest);
        assert((u[0] as char) == c);
    } else {
        let t = v - 0x10000;
        assert(0 <= t < 0x100000);
        let hi = (0xD800 + t / 1024) as u16;
        let lo = (0xDC00 + t % 1024) as u16;
        assert(t / 1024 < 1024);
        assert(u[0] == hi && u[1] == lo);
        assert(is_high_surrogate(hi) && is_low_surrogate(lo));
        assert(u.subrange(2, u.len() as int) =~= rest);
        assert((t / 1024) * 1024 + t % 1024 == t);
        assert((0x10000 + (hi - 0xD800) * 1024 + (lo - 0xDC00)) == v);
        assert(((0x10000 + (hi - 0xD800) * 1024 + (lo - 0xDC00)) as char) == c);
    }
}

/// A string written as UTF-16 reads back as itself.
pub proof fn lemma_utf16_round_trip(s: Seq<char>)
    ensures
        utf16_lossy(spec_utf16(s)) == s,
    decreases s.len(),
{
    if s.len() == 0 {
        assert(spec_utf16(s) =~= Seq::<u16>::empty());
    } else {
        lemma_utf16_front(s);
        lemma_lossy_char(s[0], spec_utf16(s.drop_first()));
        lemma_utf16_round_trip(s.drop_first());
        assert(seq![s[0]] + s.drop_first() =~= s);
    }
}

/// Pixel `(x, y)` of the frame of a read-back layer is the written layer's
/// pixel at `(left + x, top + y)`.
pub proof fn lemma_read_back_pixel_at(w: nat, h: nat, l: OutLayerModel, x: int, y: int)
    requires
        1 <= w <= MAX_SIDE,
        1 <= h <= MAX_SIDE,
        0 <= x < read_back_pixel(w, h, l).width,
        0 <= y < read_back_pixel(w, h, l).height,
    ensures
        spec_layer_pixel(read_back_pixel(w, h, l), x, y) == px4(
            l.rgba,
            w as int,
            spec_tight_rect(w, h, l.rgba).0 + x,
            spec_tight_rect(w, h, l.rgba).1 + y,
        ),
{
    let r = spec_tight_rect(w, h, l.rgba);
    lemma_tight_rect_bounds(w, h, l.rgba);
    let rw = (r.2 - r.0) as int;
    let rh = (r.3 - r.1) as int;
    let k = y * rw + x;
    assert(k < rw * rh) by (nonlinear_arith)
        requires
            0 <= x < rw,
            0 <= y < rh,
            k == y * rw + x,
    ;
    vstd::arithmetic::div_mod::lemma_fundamental_div_mod_converse(k, rw, y, x);
    let ps = record_planes(w, l.rgba, r);
    reveal_with_fuel(first_plane, 5);
    assert(ps.drop_first()[0].0 == 0i16);
    assert(ps.drop_first().drop_first()[0].0 == 1i16);
    assert(ps.drop_first().drop_first().drop_first()[0].0 == 2i16);
    assert(first_plane(ps, 0i16) == crop_plane(l.rgba, w, r.0, r.1, rw as nat, rh as nat, 0));
    assert(first_plane(ps, 1i16) == crop_plane(l.rgba, w, r.0, r.1, rw as nat, rh as nat, 1));
    assert(first_plane(ps, 2i16) == crop_plane(l.rgba, w, r.0, r.1, rw as nat, rh as nat, 2));
    assert(first_plane(ps, -1i16) == crop_plane(l.rgba, w, r.0, r.1, rw as nat, rh as nat, 3));
}

/// A layer that is in no folder and heads none.
pub open spec fn plain_layer(l: OutLayerModel) -> bool {
    l.group is None && !l.group_header
}

/// From layer `i` on, plain layers give one pixel record each, in order.
proof fn lemma_plain_records(ls: Seq<OutLayerModel>, i: int, acc: Seq<(LayerKind, Option<int>)>)
    requires
        0 <= i <= ls.len(),
        forall|j: int| 0 <= j < ls.len() ==> #[trigger] plain_layer(ls[j]),
    ensures
        spec_records(ls, i, None, acc) == acc + Seq::new(
            (ls.len() - i) as nat,
            |k: int| (LayerKind::Pixel, Some(i + k)),
        ),
    decreases ls.len() - i,
{
    let rest = Seq::new((ls.len() - i) as nat, |k: int| (LayerKind::Pixel, Some(i + k)));
    if i == ls.len() {
        assert(acc + rest =~= acc);
    } else {
        assert(plain_layer(ls[i]));
        let acc2 = acc.push((LayerKind::Pixel, Some(i)));
        lemma_plain_records(ls, i + 1, acc2);
        let rest2 = Seq::new((ls.len() - (i + 1)) as nat, |k: int| (LayerKind::Pixel, Some(i + 1 + k)));
        assert(acc2 + rest2 =~= acc + rest);
    }
}

/// Layers that are in no folder and head none are written one record each,
/// in order, and record `i` reads back as layer `i` with its name,
/// visibility, opacity, blend mode, tight frame, pixels and mask.
pub proof fn lemma_plain_layers_read_back(w: nat, h: nat, ls: Seq<OutLayerModel>)
    requires
        forall|j: int| 0 <= j < ls.len() ==> #[trigger] plain_layer(ls[j]),
    ensures
        spec_records(ls, 0, None, Seq::empty()).len() == ls.len(),
        read_back_layers(w, h, ls).len() == ls.len(),
        forall|i: int| 0 <= i < ls.len() ==> #[trigger] read_back_layers(w, h, ls)[i] == read_back_pixel(
            w,
            h,
            ls[i],
        ),
{
    lemma_plain_records(ls, 0, Seq::empty());
    let recs = spec_records(ls, 0, None, Seq::empty());
    assert(recs =~= Seq::new(ls.len(), |k: int| (LayerKind::Pixel, Some(k))));
    assert forall|i: int| 0 <= i < ls.len() implies #[trigger] read_back_layers(w, h, ls)[i]
        == read_back_pixel(w, h, ls[i]) by {
        assert(recs[i] == (LayerKind::Pixel, Some(i)));
    }
}

/// Pixel `(x, y)` of a `w`-wide RGBA buffer has an alpha other than zero.
pub open spec fn opaque_at(rgba: Seq<u8>, w: nat, x: int, y: int) -> bool {
    rgba[(y * w + x) * 4 + 3] != 0
}

/// The pixels of a `w`-wide canvas before `(x, y)` in row order.
spec fn seen_to(w: nat, y: int, x: int) -> spec_fn(int, int) -> bool {
    |px: int, py: int| 0 <= px < w && 0 <= py && (py < y || (py == y && px < x))
}

/// `acc` is the smallest box around the opaque pixels of `s`, or the empty
/// start frame when `s` has none.
spec fn frame_over(acc: (int, int, int, int), rgba: Seq<u8>, w: nat, s: spec_fn(int, int) -> bool) -> bool {
    if exists|px: int, py: int| s(px, py) && #[trigger] opaque_at(rgba, w, px, py) {
        &&& forall|px: int, py: int|
            s(px, py) && #[trigger] opaque_at(rgba, w, px, py) ==> acc.0 <= px < acc.2 && acc.1 <= py < acc.3
        &&& exists|px: int, py: int| s(px, py) && #[trigger] opaque_at(rgba, w, px, py) && px == acc.0
        &&& exists|px: int, py: int| s(px, py) && #[trigger] opaque_at(rgba, w, px, py) && px + 1 == acc.2
        &&& exists|px: int, py: int| s(px, py) && #[trigger] opaque_at(rgba, w, px, py) && py == acc.1
        &&& exists|px: int, py: int| s(px, py) && #[trigger] opaque_at(rgba, w, px, py) && py + 1 == acc.3
    } else {
        acc == (0x7fff_ffffint, 0x7fff_ffffint, -1int, -1int)
    }
}

/// Looking at one more pixel keeps the frame the smallest box.
proof fn lemma_frame_step(rgba: Seq<u8>, w: nat, y: int, x: int, acc: (int, int, int, int))
    requires
        0 <= y,
        0 <= x < w,
        w < 0x7fff_ffff,
        y + 1 < 0x7fff_ffff,
        frame_over(acc, rgba, w, seen_to(w, y, x)),
    ensures
        frame_over(
            if opaque_at(rgba, w, x, y) {
                crate::psd_write::rect_step(acc, x, y)
            } else {
                acc
            },
            rgba,
            w,
            seen_to(w, y, x + 1),
        ),
{
    let s0 = seen_to(w, y, x);
    let s1 = seen_to(w, y, x + 1);
    assert forall|px: int, py: int| #[trigger] s1(px, py) == (s0(px, py) || (px == x && py == y)) by {}
    let had = exists|px: int, py: int| s0(px, py) && #[trigger] opaque_at(rgba, w, px, py);
    if opaque_at(rgba, w, x, y) {
        let acc2 = crate::psd_write::rect_step(acc, x, y);
        assert(s1(x, y));
        if had {
            let (a0, b0) = choose|px: int, py: int| s0(px, py) && #[trigger] opaque_at(rgba, w, px, py) && px == acc.0;
            let (a1, b1) = choose|px: int, py: int| s0(px, py) && #[trigger] opaque_at(rgba, w, px, py) && px + 1 == acc.2;
            let (a2, b2) = choose|px: int, py: int| s0(px, py) && #[trigger] opaque_at(rgba, w, px, py) && py == acc.1;
            let (a3, b3) = choose|px: int, py: int| s0(px, py) && #[trigger] opaque_at(rgba, w, px, py) && py + 1 == acc.3;
            assert(s1(a0, b0) && s1(a1, b1) && s1(a2, b2) && s1(a3, b3));
            if x < acc.0 {
                assert(opaque_at(rgba, w, x, y) && x == acc2.0);
            } else {
                assert(opaque_at(rgba, w, a0, b0) && a0 == acc2.0);
            }
            if x + 1 > acc.2 {
                assert(opaque_at(rgba, w, x, y) && x + 1 == acc2.2);
            } else {
                assert(opaque_at(rgba, w, a1, b1) && a1 + 1 == acc2.2);
            }
            if y < acc.1 {
                assert(opaque_at(rgba, w, x, y) && y == acc2.1);
            } else {
                assert(opaque_at(rgba, w, a2, b2) && b2 == acc2.1);
            }
            if y + 1 > acc.3 {
                assert(opaque_at(rgba, w, x, y) && y + 1 == acc2.3);
            } else {
                assert(opaque_at(rgba, w, a3, b3) && b3 + 1 == acc2.3);
            }
        } else {
            assert(acc2 == (x, y, x + 1, y + 1));
            assert forall|px: int, py: int| s1(px, py) && #[trigger] opaque_at(rgba, w, px, py) implies px == x
                && py == y by {
                if s0(px, py) {
                    assert(!(s0(px, py) && opaque_at(rgba, w, px, py)));
                }
            }
        }
    } else {
        assert forall|px: int, py: int| s1(px, py) && #[trigger] opaque_at(rgba, w, px, py) implies s0(px, py) by {}
        if had {
            let (a0, b0) = choose|px: int, py: int| s0(px, py) && #[trigger] opaque_at(rgba, w, px, py) && px == acc.0;
            let (a1, b1) = choose|px: int, py: int| s0(px, py) && #[trigger] opaque_at(rgba, w, px, py) && px + 1 == acc.2;
            let (a2, b2) = choose|px: int, py: int| s0(px, py) && #[trigger] opaque_at(rgba, w, px, py) && py == acc.1;
            let (a3, b3) = choose|px: int, py: int| s0(px, py) && #[trigger] opaque_at(rgba, w, px, py) && py + 1 == acc.3;
            assert(s1(a0, b0) && s1(a1, b1) && s1(a2, b2) && s1(a3, b3));
        }
    }
}

proof fn lemma_frame_row(rgba: Seq<u8>, w: nat, y: int, x: int, acc: (int, int, int, int))
    requires
        0 <= y,
        0 <= x <= w,
        w < 0x7fff_ffff,
        y + 1 < 0x7fff_ffff,
        frame_over(acc, rgba, w, seen_to(w, y, x)),
    ensures
        frame_over(rect_row(rgba, w, y, x, acc), rgba, w, seen_to(w, y, w as int)),
    decreases w - x,
{
    if x < w {
        lemma_frame_step(rgba, w, y, x, acc);
        let acc2 = if rgba[(y * w + x) * 4 + 3] != 0 {
            crate::psd_write::rect_step(acc, x, y)
        } else {
            acc
        };
        lemma_frame_row(rgba, w, y, x + 1, acc2);
    }
}

proof fn lemma_frame_rows(rgba: Seq<u8>, w: nat, h: nat, y: int, acc: (int, int, int, int))
    requires
        0 <= y <= h,
        w < 0x7fff_ffff,
        h < 0x7fff_ffff,
        frame_over(acc, rgba, w, seen_to(w, y, 0)),
    ensures
        frame_over(rect_rows(rgba, w, h, y, acc), rgba, w, seen_to(w, h as int, 0)),
    decreases h - y,
{
    if y < h {
        lemma_frame_row(rgba, w, y, 0, acc);
        assert(seen_to(w, y, w as int) =~= seen_to(w, y + 1, 0));
        lemma_frame_rows(rgba, w, h, y + 1, rect_row(rgba, w, y, 0, acc));
    }
}

/// The frame a layer is written with is the smallest box holding every
/// pixel whose alpha is not zero: each such pixel lies inside it and each
/// of its four sides touches one of them. A layer without such a pixel gets
/// the 1×1 frame at the origin.
pub proof fn lemma_tight_rect_is_box(w: nat, h: nat, rgba: Seq<u8>)
    requires
        1 <= w <= MAX_SIDE,
        1 <= h <= MAX_SIDE,
    ensures
        ({
            let r = spec_tight_rect(w, h, rgba);
            &&& forall|x: int, y: int|
                0 <= x < w && 0 <= y < h && #[trigger] opaque_at(rgba, w, x, y) ==> r.0 <= x < r.2 && r.1 <= y < r.3
            &&& (exists|x: int, y: int| 0 <= x < w && 0 <= y < h && #[trigger] opaque_at(rgba, w, x, y)) ==> {
                &&& exists|x: int, y: int| 0 <= x < w && 0 <= y < h && #[trigger] opaque_at(rgba, w, x, y) && x == r.0
                &&& exists|x: int, y: int| 0 <= x < w && 0 <= y < h && #[trigger] opaque_at(rgba, w, x, y) && x + 1 == r.2
                &&& exists|x: int, y: int| 0 <= x < w && 0 <= y < h && #[trigger] opaque_at(rgba, w, x, y) && y == r.1
                &&& exists|x: int, y: int| 0 <= x < w && 0 <= y < h && #[trigger] opaque_at(rgba, w, x, y) && y + 1 == r.3
            }
            &&& !(exists|x: int, y: int| 0 <= x < w && 0 <= y < h && #[trigger] opaque_at(rgba, w, x, y)) ==> r == (
                0int,
                0int,
                1int,
                1int,
            )
        }),
{
    let init = (0x7fff_ffffint, 0x7fff_ffffint, -1int, -1int);
    let s0 = seen_to(w, 0, 0);
    assert(!exists|px: int, py: int| s0(px, py) && #[trigger] opaque_at(rgba, w, px, py));
    lemma_frame_rows(rgba, w, h, 0, init);
    let all = seen_to(w, h as int, 0);
    assert forall|x: int, y: int| #[trigger] all(x, y) == (0 <= x < w && 0 <= y < h) by {}
}

/// A PSD written from layers that are in no folder and head none reads back
/// with its size, the merged image that was written, and one layer per
/// written layer in the same order: layer `i` as a plain, unclipped layer
/// with its name, visibility, opacity, blend mode and mask, framed by its
/// tight frame (`lemma_tight_rect_is_box`), whose pixel `(x, y)` is the
/// written pixel at `(left + x, top + y)`.
pub proof fn lemma_write_plain_layers_read_round_trip(
    w: nat,
    h: nat,
    composite: Seq<u8>,
    ls: Seq<OutLayerModel>,
)
    requires
        1 <= w <= MAX_SIDE,
        1 <= h <= MAX_SIDE,
        composite.len() == w * h * 4,
        ls.len() <= 4096,
        forall|j: int| 0 <= j < ls.len() ==> #[trigger] plain_layer(ls[j]),
        spec_write_layers(w, h, composite, ls).len() <= u32::MAX,
    ensures
        spec_read_file(spec_write_layers(w, h, composite, ls)) is Ok,
        ({
            let f = spec_read_file(spec_write_layers(w, h, composite, ls))->Ok_0;
            &&& f.width == w
            &&& f.height == h
            &&& f.merged.pixels == composite
            &&& f.layers.len() == ls.len()
            &&& forall|i: int| 0 <= i < ls.len() ==> {
                let l = #[trigger] f.layers[i];
                let r = spec_tight_rect(w, h, ls[i].rgba);
                &&& l.kind == LayerKind::Pixel
                &&& l.name == ls[i].name
                &&& l.visible == ls[i].visible
                &&& l.opacity == ls[i].opacity
                &&& l.blend == ls[i].blend
                &&& !l.clipped
                &&& l.mask == read_back_mask(w, h, ls[i].mask)
                &&& l.left == r.0 && l.top == r.1 && l.width == r.2 - r.0 && l.height == r.3 - r.1
                &&& forall|x: int, y: int|
                    0 <= x < l.width && 0 <= y < l.height ==> #[trigger] spec_layer_pixel(l, x, y) == px4(
                        ls[i].rgba,
                        w as int,
                        r.0 + x,
                        r.1 + y,
                    )
            }
        }),
{
    lemma_plain_layers_read_back(w, h, ls);
    lemma_write_layers_read_round_trip(w, h, composite, ls);
    let f = spec_read_file(spec_write_layers(w, h, composite, ls))->Ok_0;
    assert forall|i: int| 0 <= i < ls.len() implies {
        let l = #[trigger] f.layers[i];
        let r = spec_tight_rect(w, h, ls[i].rgba);
        &&& l.left == r.0 && l.top == r.1 && l.width == r.2 - r.0 && l.height == r.3 - r.1
        &&& forall|x: int, y: int|
            0 <= x < l.width && 0 <= y < l.height ==> #[trigger] spec_layer_pixel(l, x, y) == px4(
                ls[i].rgba,
                w as int,
                r.0 + x,
                r.1 + y,
            )
    } by {
        let l = f.layers[i];
        let r = spec_tight_rect(w, h, ls[i].rgba);
        assert(l == read_back_pixel(w, h, ls[i]));
        lemma_tight_rect_bounds(w, h, ls[i].rgba);
        assert forall|x: int, y: int| 0 <= x < l.width && 0 <= y < l.height implies #[trigger] spec_layer_pixel(
            l,
            x,
            y,
        ) == px4(ls[i].rgba, w as int, r.0 + x, r.1 + y) by {
            lemma_read_back_pixel_at(w, h, ls[i], x, y);
        }
    }
}

} // verus!
