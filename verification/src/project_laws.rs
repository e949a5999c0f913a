//! What a written project file reads back as.
use crate::doc::{BlendMode, LayerView, MetaView};
use crate::document::DocView;
use crate::project::{
    blend_at, blend_index, clamp_unit, counted, flag, gray_of_png, header_bytes, layer_head, layer_record, layer_tail,
    le32, mask_part, parse_group, parse_header, parse_layer, parse_layers, parse_mask, png_of_gray, png_of_rgba,
    record_front, record_tail, records_upto, rgba_of_png, spec_decode, spec_encode, u32_at, with_layers, ProjectError,
    ProjectHeader, MAGIC, MAX_CANVAS, MAX_GROUP, MAX_LAYERS, MAX_NAME, VERSION,
};
use vstd::prelude::*;
use vstd::utf8::{encode_utf8, encode_utf8_decode_utf8, encode_utf8_valid_utf8};

verus! {

/// A layer of a `w`×`h` canvas comes back unchanged from a project file:
/// it has the canvas size; its name and folder fit their limits (a folder,
/// when there is one, has a name); its opacity is already within
/// `0.0..=1.0`; its blend mode is one of the editor's own; a layer without
/// a mask has the mask switched on; and the
/// PNG encoder's output for its pixels and mask is short enough to be
/// counted and decodes to the same pixels.
#[verifier::opaque]
pub open spec fn keeps_in_project(l: LayerView, w: u32, h: u32) -> bool {
    &&& l.pixels.len() == w * h * 4
    &&& png_of_rgba(w, h, l.pixels) matches Some(p) && p.len() <= u32::MAX && rgba_of_png(p) == Some(
        (w, h, l.pixels),
    )
    &&& encode_utf8(l.meta.name).len() <= MAX_NAME
    &&& clamp_unit(l.meta.opacity) == l.meta.opacity
    &&& project_blend(l.meta.blend) == l.meta.blend
    &&& match l.meta.group {
        None => true,
        Some(g) => 0 < encode_utf8(g).len() <= MAX_GROUP,
    }
    &&& match l.mask {
        None => l.mask_on,
        Some(m) => m.len() == w * h && (png_of_gray(w, h, m) matches Some(mp) && mp.len() <= u32::MAX
            && gray_of_png(mp) == Some((w, h, m))),
    }
}

/// A layer of a `w`×`h` canvas can be written to a project file and its
/// pixels and mask come back: it has the canvas size, its name and folder
/// fit their limits, and the PNG encoder's output for its pixels and mask
/// is short enough to be counted and decodes to the same pixels.
#[verifier::opaque]
pub open spec fn writes_in_project(l: LayerView, w: u32, h: u32) -> bool {
    &&& l.pixels.len() == w * h * 4
    &&& png_of_rgba(w, h, l.pixels) matches Some(p) && p.len() <= u32::MAX && rgba_of_png(p) == Some(
        (w, h, l.pixels),
    )
    &&& encode_utf8(l.meta.name).len() <= MAX_NAME
    &&& match l.meta.group {
        None => true,
        Some(g) => encode_utf8(g).len() <= MAX_GROUP,
    }
    &&& match l.mask {
        None => true,
        Some(m) => m.len() == w * h && (png_of_gray(w, h, m) matches Some(mp) && mp.len() <= u32::MAX
            && gray_of_png(mp) == Some((w, h, m))),
    }
}

/// A blend mode as a project file keeps it: one of the editor's own modes
/// stays, any other (one read from a PSD file) becomes `Normal`.
pub open spec fn project_blend(m: BlendMode) -> BlendMode {
    match m {
        BlendMode::Multiply => BlendMode::Multiply,
        BlendMode::Screen => BlendMode::Screen,
        BlendMode::Overlay => BlendMode::Overlay,
        BlendMode::Add => BlendMode::Add,
        _ => BlendMode::Normal,
    }
}

/// What a layer reads back as from a project file: the blend mode as the
/// format keeps it (see `project_blend`), the opacity held within
/// `0.0..=1.0`, a folder with an empty name read as no folder, and the mask
/// switched on when there is no mask.
pub open spec fn project_normal(l: LayerView) -> LayerView {
    LayerView {
        meta: MetaView {
            opacity: clamp_unit(l.meta.opacity),
            blend: project_blend(l.meta.blend),
            group: match l.meta.group {
                Some(g) => if encode_utf8(g).len() == 0 {
                    None
                } else {
                    Some(g)
                },
                None => None,
            },
            ..l.meta
        },
        mask_on: if l.mask is None {
            true
        } else {
            l.mask_on
        },
        ..l
    }
}

/// What a document reads back as from a project file: every layer in its
/// normal form, and the active layer held within the layers.
pub open spec fn project_normal_doc(d: DocView) -> DocView {
    DocView {
        layers: d.layers.map_values(|l: LayerView| project_normal(l)),
        active: if d.active < d.layers.len() {
            d.active
        } else {
            (d.layers.len() - 1) as nat
        },
        ..d
    }
}

/// The record that a layer which `writes_in_project` is written as.
pub open spec fn good_record(l: LayerView, w: u32, h: u32) -> Seq<u8> {
    record_front(l.meta, png_of_rgba(w, h, l.pixels)->Some_0) + mask_part(
        l.mask_on,
        match l.mask {
            None => None,
            Some(m) => Some(png_of_gray(w, h, m)->Some_0),
        },
    ) + record_tail(l.meta)
}

/// The records of the first `k` layers.
pub open spec fn good_records(ls: Seq<LayerView>, w: u32, h: u32, k: nat) -> Seq<u8>
    decreases k,
{
    if k == 0 {
        Seq::empty()
    } else {
        good_records(ls, w, h, (k - 1) as nat) + good_record(ls[k - 1], w, h)
    }
}

proof fn lemma_le32(v: u32)
    ensures
        le32(v).len() == 4,
        u32_at(le32(v), 0) == v,
{
    assert((v % 256) + (v / 256 % 256) * 256 + (v / 65536 % 256) * 65536 + (v / 16777216) * 16777216 == v)
        by (bit_vector);
    assert(v / 16777216 < 256) by (bit_vector);
}

/// The `u32` at `p` is the one whose bytes lie there.
proof fn lemma_read32(b: Seq<u8>, p: int, v: u32)
    requires
        0 <= p,
        p + 4 <= b.len(),
        b.subrange(p, p + 4) == le32(v),
    ensures
        u32_at(b, p) == v,
{
    lemma_le32(v);
    assert(b[p] == b.subrange(p, p + 4)[0]);
    assert(b[p + 1] == b.subrange(p, p + 4)[1]);
    assert(b[p + 2] == b.subrange(p, p + 4)[2]);
    assert(b[p + 3] == b.subrange(p, p + 4)[3]);
}

/// A piece of a piece of `b`.
proof fn lemma_piece(b: Seq<u8>, p: int, rec: Seq<u8>, k: int, piece: Seq<u8>)
    requires
        0 <= p,
        p + rec.len() <= b.len(),
        b.subrange(p, p + rec.len()) == rec,
        0 <= k,
        k + piece.len() <= rec.len(),
        rec.subrange(k, k + piece.len()) == piece,
    ensures
        b.subrange(p + k, p + k + piece.len()) == piece,
{
    assert(b.subrange(p + k, p + k + piece.len()) =~= rec.subrange(k, k + piece.len()));
}

proof fn lemma_blend_round_trip(m: BlendMode)
    ensures
        blend_at(blend_index(m)) == project_blend(m),
{
}

/// Reading the folder part written for `meta` gives it back.
proof fn lemma_parse_group(b: Seq<u8>, p: int, l: LayerView)
    requires
        0 <= p,
        p + record_tail(l.meta).len() <= b.len(),
        b.subrange(p, p + record_tail(l.meta).len()) == record_tail(l.meta),
        match l.meta.group {
            None => true,
            Some(g) => encode_utf8(g).len() <= MAX_GROUP,
        },
    ensures
        parse_group(b, p, VERSION) == Ok::<(Option<Seq<char>>, bool, int), ProjectError>(
            (project_normal(l).meta.group, l.meta.group_open, p + record_tail(l.meta).len()),
        ),
{
    let t = record_tail(l.meta);
    match l.meta.group {
        None => {
            assert(t =~= le32(0) + seq![flag(l.meta.group_open)]);
            lemma_le32(0);
            assert(t.subrange(0, 4) =~= le32(0));
            lemma_piece(b, p, t, 0, le32(0));
            lemma_read32(b, p, 0);
            assert(b[p + 4] == t[4]);
        },
        Some(g) => {
            let gb = encode_utf8(g);
            assert(t =~= le32(gb.len() as u32) + gb + seq![flag(l.meta.group_open)]);
            lemma_le32(gb.len() as u32);
            assert(t.subrange(0, 4) =~= le32(gb.len() as u32));
            lemma_piece(b, p, t, 0, le32(gb.len() as u32));
            lemma_read32(b, p, gb.len() as u32);
            assert(t.subrange(4, 4 + gb.len() as int) =~= gb);
            lemma_piece(b, p, t, 4, gb);
            encode_utf8_valid_utf8(g);
            encode_utf8_decode_utf8(g);
            let gl: int = gb.len() as int;
            assert(b[p + 4 + gl] == t[4 + gl]);
        },
    }
}

/// Reading the mask part written for a layer gives its mask back.
proof fn lemma_parse_mask(b: Seq<u8>, p: int, l: LayerView, w: u32, h: u32, i: nat, mp: Option<Seq<u8>>)
    requires
        0 <= p,
        mp == match l.mask {
            None => None,
            Some(m) => Some(png_of_gray(w, h, m)->Some_0),
        },
        p + mask_part(l.mask_on, mp).len() <= b.len(),
        b.subrange(p, p + mask_part(l.mask_on, mp).len()) == mask_part(l.mask_on, mp),
        match l.mask {
            None => true,
            Some(m) => m.len() == w * h && (png_of_gray(w, h, m) matches Some(x) && x.len() <= u32::MAX
                && gray_of_png(x) == Some((w, h, m))),
        },
    ensures
        parse_mask(b, p, VERSION, w, h, i) == Ok::<(Option<Seq<u8>>, bool, int), ProjectError>(
            (l.mask, project_normal(l).mask_on, p + mask_part(l.mask_on, mp).len()),
        ),
{
    let t = mask_part(l.mask_on, mp);
    match l.mask {
        None => {
            assert(b[p] == t[0]);
        },
        Some(m) => {
            let x = png_of_gray(w, h, m)->Some_0;
            assert(t =~= seq![1u8, flag(l.mask_on)] + le32(x.len() as u32) + x);
            assert(b[p] == t[0]);
            assert(b[p + 1] == t[1]);
            lemma_le32(x.len() as u32);
            assert(t.subrange(2, 6) =~= le32(x.len() as u32));
            lemma_piece(b, p, t, 2, le32(x.len() as u32));
            lemma_read32(b, p + 2, x.len() as u32);
            assert(t.subrange(6, 6 + x.len() as int) =~= x);
            lemma_piece(b, p, t, 6, x);
        },
    }
}

/// Reading the start of a record gives the name, flags, opacity, blending
/// and PNG written there.
#[verifier::rlimit(20)]
proof fn lemma_head(b: Seq<u8>, p: int, l: LayerView, png: Seq<u8>)
    requires
        0 <= p,
        p + record_front(l.meta, png).len() <= b.len(),
        b.subrange(p, p + record_front(l.meta, png).len()) == record_front(l.meta, png),
        encode_utf8(l.meta.name).len() <= MAX_NAME,
        png.len() <= u32::MAX,
    ensures
        layer_head(b, p) matches Ok(hd) && hd.name == l.meta.name && hd.visible == l.meta.visible && hd.locked
            == l.meta.locked && hd.opacity == clamp_unit(l.meta.opacity) && hd.blend == project_blend(l.meta.blend) && hd.png == png && hd.end == p
            + record_front(l.meta, png).len(),
{
    let nb = encode_utf8(l.meta.name);
    let front = record_front(l.meta, png);
    let nl: int = nb.len() as int;
    let pl: int = png.len() as int;
    assert(front =~= le32(nl as u32) + nb + seq![flag(l.meta.visible), flag(l.meta.locked)] + le32(l.meta.opacity)
        + le32(blend_index(l.meta.blend)) + le32(pl as u32) + png);
    let p2 = p + 4 + nl;
    lemma_le32(nl as u32);
    assert(front.subrange(0, 4) =~= le32(nl as u32));
    lemma_piece(b, p, front, 0, le32(nl as u32));
    lemma_read32(b, p, nl as u32);
    assert(front.subrange(4, 4 + nl) =~= nb);
    lemma_piece(b, p, front, 4, nb);
    encode_utf8_valid_utf8(l.meta.name);
    encode_utf8_decode_utf8(l.meta.name);
    assert(b[p2] == front[4 + nl]);
    assert(b[p2 + 1] == front[5 + nl]);
    lemma_le32(l.meta.opacity);
    assert(front.subrange(6 + nl, 10 + nl) =~= le32(l.meta.opacity));
    lemma_piece(b, p, front, 6 + nl, le32(l.meta.opacity));
    lemma_read32(b, p2 + 2, l.meta.opacity);
    lemma_le32(blend_index(l.meta.blend));
    assert(front.subrange(10 + nl, 14 + nl) =~= le32(blend_index(l.meta.blend)));
    lemma_piece(b, p, front, 10 + nl, le32(blend_index(l.meta.blend)));
    lemma_read32(b, p2 + 6, blend_index(l.meta.blend));
    lemma_blend_round_trip(l.meta.blend);
    lemma_le32(pl as u32);
    assert(front.subrange(14 + nl, 18 + nl) =~= le32(pl as u32));
    lemma_piece(b, p, front, 14 + nl, le32(pl as u32));
    lemma_read32(b, p2 + 10, pl as u32);
    assert(front.subrange(18 + nl, 18 + nl + pl) =~= png);
    lemma_piece(b, p, front, 18 + nl, png);
}

/// Reading the record written for a layer gives the layer back.
proof fn lemma_parse_record(b: Seq<u8>, p: int, l: LayerView, w: u32, h: u32, i: nat)
    requires
        0 <= p,
        writes_in_project(l, w, h),
        p + good_record(l, w, h).len() <= b.len(),
        b.subrange(p, p + good_record(l, w, h).len()) == good_record(l, w, h),
    ensures
        parse_layer(b, p, VERSION, w, h, i) == Ok::<(LayerView, int), ProjectError>(
            (project_normal(l), p + good_record(l, w, h).len()),
        ),
{
    reveal(writes_in_project);
    let rec = good_record(l, w, h);
    let png = png_of_rgba(w, h, l.pixels)->Some_0;
    let mp = match l.mask {
        None => None,
        Some(m) => Some(png_of_gray(w, h, m)->Some_0),
    };
    let front = record_front(l.meta, png);
    let mpart = mask_part(l.mask_on, mp);
    let tail = record_tail(l.meta);
    assert(rec == front + mpart + tail);
    assert(rec.subrange(0, front.len() as int) =~= front);
    lemma_piece(b, p, rec, 0, front);
    lemma_head(b, p, l, png);
    let hd = layer_head(b, p)->Ok_0;
    assert(rec.subrange(front.len() as int, (front.len() + mpart.len()) as int) =~= mpart);
    lemma_piece(b, p, rec, front.len() as int, mpart);
    lemma_parse_mask(b, p + front.len(), l, w, h, i, mp);
    assert(rec.subrange((front.len() + mpart.len()) as int, rec.len() as int) =~= tail);
    lemma_piece(b, p, rec, (front.len() + mpart.len()) as int, tail);
    lemma_parse_group(b, p + front.len() + mpart.len(), l);
    let r = layer_tail(b, hd, l.pixels, VERSION, w, h, i);
    assert(r == Ok::<(LayerView, int), ProjectError>((project_normal(l), p + rec.len())));
}

/// Every layer that keeps in a project is written as its good record.
proof fn lemma_records(ls: Seq<LayerView>, w: u32, h: u32, k: nat)
    requires
        k <= ls.len(),
        forall|j: int| 0 <= j < ls.len() ==> writes_in_project(#[trigger] ls[j], w, h),
    ensures
        records_upto(ls, w, h, k) == Ok::<Seq<u8>, ProjectError>(good_records(ls, w, h, k)),
    decreases k,
{
    if k > 0 {
        lemma_records(ls, w, h, (k - 1) as nat);
        let l = ls[k - 1];
        assert(writes_in_project(l, w, h));
        reveal(writes_in_project);
        assert(layer_record(l, w, h, (k - 1) as nat) == Ok::<Seq<u8>, ProjectError>(good_record(l, w, h)));
    }
}

/// The records of the first `k` layers begin the records of the first `n`.
proof fn lemma_records_prefix(ls: Seq<LayerView>, w: u32, h: u32, k: nat, n: nat)
    requires
        k <= n,
    ensures
        good_records(ls, w, h, k).len() <= good_records(ls, w, h, n).len(),
        good_records(ls, w, h, n).subrange(0, good_records(ls, w, h, k).len() as int) == good_records(ls, w, h, k),
    decreases n - k,
{
    if k < n {
        lemma_records_prefix(ls, w, h, k, (n - 1) as nat);
        let a = good_records(ls, w, h, (n - 1) as nat);
        assert((a + good_record(ls[n - 1], w, h)).subrange(0, good_records(ls, w, h, k).len() as int) =~= a.subrange(
            0,
            good_records(ls, w, h, k).len() as int,
        ));
    } else {
        assert(good_records(ls, w, h, n).subrange(0, good_records(ls, w, h, n).len() as int) =~= good_records(
            ls,
            w,
            h,
            n,
        ));
    }
}

/// Reading the layers from the record of layer `k` on gives layers `k..`.
#[verifier::rlimit(20)]
proof fn lemma_parse_from(b: Seq<u8>, ls: Seq<LayerView>, w: u32, h: u32, k: nat, n: nat)
    requires
        k <= n,
        n == ls.len(),
        forall|j: int| 0 <= j < ls.len() ==> writes_in_project(#[trigger] ls[j], w, h),
        28 + good_records(ls, w, h, n).len() <= b.len(),
        b.subrange(28, (28 + good_records(ls, w, h, n).len()) as int) == good_records(ls, w, h, n),
    ensures
        parse_layers(b, (28 + good_records(ls, w, h, k).len()) as int, VERSION, w, h, k, n) == Ok::<Seq<LayerView>, ProjectError>(
            ls.subrange(k as int, n as int).map_values(|l: LayerView| project_normal(l)),
        ),
    decreases n - k,
{
    if k < n {
        let all = good_records(ls, w, h, n);
        let before = good_records(ls, w, h, k);
        let upto = good_records(ls, w, h, k + 1);
        let rec = good_record(ls[k as int], w, h);
        assert(upto == before + rec);
        lemma_records_prefix(ls, w, h, k + 1, n);
        assert(all.subrange(before.len() as int, upto.len() as int) =~= upto.subrange(before.len() as int, upto.len() as int));
        assert(upto.subrange(before.len() as int, upto.len() as int) =~= rec);
        lemma_piece(b, 28, all, before.len() as int, rec);
        assert(writes_in_project(ls[k as int], w, h));
        lemma_parse_record(b, (28 + before.len()) as int, ls[k as int], w, h, k);
        lemma_parse_from(b, ls, w, h, k + 1, n);
        assert(seq![project_normal(ls[k as int])] + ls.subrange((k + 1) as int, n as int).map_values(
            |l: LayerView| project_normal(l),
        ) =~= ls.subrange(k as int, n as int).map_values(|l: LayerView| project_normal(l)));
    } else {
        assert(ls.subrange(k as int, n as int).map_values(|l: LayerView| project_normal(l)) =~= Seq::<LayerView>::empty());
    }
}

/// Reading the header written for a document gives its fields back.
proof fn lemma_header(recs: Seq<u8>, w: u32, h: u32, n: u32, active: u32)
    requires
        1 <= w <= MAX_CANVAS,
        1 <= h <= MAX_CANVAS,
        w * h * 4 <= usize::MAX,
        1 <= n <= MAX_LAYERS,
    ensures
        header_bytes(w, h, n, active).len() == 28,
        parse_header(header_bytes(w, h, n, active) + recs) == Ok::<ProjectHeader, ProjectError>(
            ProjectHeader { version: VERSION, width: w, height: h, count: n, active },
        ),
{
    let head = header_bytes(w, h, n, active);
    let b = head + recs;
    assert(head =~= MAGIC@ + le32(VERSION) + le32(w) + le32(h) + le32(n) + le32(active));
    lemma_le32(VERSION);
    lemma_le32(w);
    lemma_le32(h);
    lemma_le32(n);
    lemma_le32(active);
    assert(head.len() == 28);
    assert(b.subrange(0, 8) =~= MAGIC@);
    assert(b.subrange(8, 12) =~= le32(VERSION));
    lemma_read32(b, 8, VERSION);
    assert(b.subrange(12, 16) =~= le32(w));
    lemma_read32(b, 12, w);
    assert(b.subrange(16, 20) =~= le32(h));
    lemma_read32(b, 16, h);
    assert(b.subrange(20, 24) =~= le32(n));
    lemma_read32(b, 20, n);
    assert(b.subrange(24, 28) =~= le32(active));
    lemma_read32(b, 24, active);
}

/// The bytes a document is written as, when every layer keeps in a
/// project.
pub open spec fn good_file(d: DocView) -> Seq<u8> {
    header_bytes(d.width as u32, d.height as u32, d.layers.len() as u32, d.active as u32) + good_records(
        d.layers,
        d.width as u32,
        d.height as u32,
        d.layers.len(),
    )
}

proof fn lemma_encoded(d: DocView)
    requires
        forall|j: int| 0 <= j < d.layers.len() ==> writes_in_project(#[trigger] d.layers[j], d.width as u32, d.height as u32),
    ensures
        spec_encode(d) == Ok::<Seq<u8>, ProjectError>(good_file(d)),
{
    lemma_records(d.layers, d.width as u32, d.height as u32, d.layers.len());
}

#[verifier::rlimit(20)]
proof fn lemma_decoded(d: DocView)
    requires
        1 <= d.width <= MAX_CANVAS,
        1 <= d.height <= MAX_CANVAS,
        d.width * d.height * 4 <= usize::MAX,
        1 <= d.layers.len() <= MAX_LAYERS,
        d.active <= u32::MAX,
        forall|j: int| 0 <= j < d.layers.len() ==> writes_in_project(#[trigger] d.layers[j], d.width as u32, d.height as u32),
    ensures
        spec_decode(good_file(d)) == Ok::<DocView, ProjectError>(project_normal_doc(d)),
{
    let w = d.width as u32;
    let h = d.height as u32;
    let n = d.layers.len();
    let recs = good_records(d.layers, w, h, n);
    let b = good_file(d);
    lemma_header(recs, w, h, n as u32, d.active as u32);
    let hd = ProjectHeader { version: VERSION, width: w, height: h, count: n as u32, active: d.active as u32 };
    assert(parse_header(b) == Ok::<ProjectHeader, ProjectError>(hd));
    assert(b.subrange(28, (28 + recs.len()) as int) =~= recs);
    lemma_parse_from(b, d.layers, w, h, 0, n);
    assert(d.layers.subrange(0, n as int) =~= d.layers);
    let nl = d.layers.map_values(|l: LayerView| project_normal(l));
    assert(parse_layers(b, 28, VERSION, w, h, 0, n) == Ok::<Seq<LayerView>, ProjectError>(nl));
    assert(with_layers(hd, Ok::<Seq<LayerView>, ProjectError>(nl)) == Ok::<DocView, ProjectError>(
        project_normal_doc(d),
    ));
}

/// A document written as a project file reads back in its normal form
/// (see `project_normal_doc`: opacities held within `0.0..=1.0`, folders
/// with an empty name dropped, masks switched on where there is no mask, the
/// active layer held within the layers), when its canvas and layer count
/// are within the format's limits and every layer can be written (see
/// `writes_in_project`).
pub proof fn lemma_project_round_trip_normal(d: DocView)
    requires
        1 <= d.width <= MAX_CANVAS,
        1 <= d.height <= MAX_CANVAS,
        d.width * d.height * 4 <= usize::MAX,
        1 <= d.layers.len() <= MAX_LAYERS,
        d.active <= u32::MAX,
        forall|j: int| 0 <= j < d.layers.len() ==> writes_in_project(#[trigger] d.layers[j], d.width as u32, d.height as u32),
    ensures
        spec_encode(d) matches Ok(bytes) && spec_decode(bytes) == Ok::<DocView, ProjectError>(project_normal_doc(d)),
{
    lemma_encoded(d);
    lemma_decoded(d);
}

/// A document written as a project file reads back unchanged, when its
/// canvas and layer count are within the format's limits, its active layer
/// exists, and every layer keeps in a project (see `keeps_in_project`).
pub proof fn lemma_project_round_trip(d: DocView)
    requires
        1 <= d.width <= MAX_CANVAS,
        1 <= d.height <= MAX_CANVAS,
        d.width * d.height * 4 <= usize::MAX,
        1 <= d.layers.len() <= MAX_LAYERS,
        d.active < d.layers.len(),
        forall|j: int| 0 <= j < d.layers.len() ==> keeps_in_project(#[trigger] d.layers[j], d.width as u32, d.height as u32),
    ensures
        spec_encode(d) matches Ok(bytes) && spec_decode(bytes) == Ok::<DocView, ProjectError>(d),
{
    assert forall|j: int| 0 <= j < d.layers.len() implies writes_in_project(#[trigger] d.layers[j], d.width as u32, d.height as u32)
        && project_normal(d.layers[j]) == d.layers[j] by {
        reveal(keeps_in_project);
        reveal(writes_in_project);
        let l = d.layers[j];
        if let Some(g) = l.meta.group {
            assert(encode_utf8(g).len() > 0);
        }
        assert(project_normal(l).meta == l.meta);
    }
    assert(d.layers.map_values(|l: LayerView| project_normal(l)) =~= d.layers);
    lemma_project_round_trip_normal(d);
}

} // verus!
