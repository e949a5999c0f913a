//! What a written PSD reads back as.
use crate::packbits::{lemma_packbits_len, lemma_packbits_round_trip, spec_packbits};
use crate::psd::{FileModel, ImageModel, MAX_SIDE};
use crate::psd_read::{
    be16, be32, merge_planes, psd_signature, spec_read_file, spec_read_layers, spec_read_merged,
    spec_read_plane, spec_read_planes, spec_read_rows,
};
use crate::psd_write::{
    channel_row, merged_channels, packed_channel_rows, row_bytes, row_lengths, spec_header,
    spec_merged_section, spec_write, u16be, u32be,
};
use vstd::prelude::*;

verus! {

proof fn lemma_sub_sub(x: Seq<u8>, i: int, j: int, k: int, l: int)
    requires
        0 <= i <= j <= x.len(),
        0 <= k <= l <= j - i,
    ensures
        x.subrange(i, j).subrange(k, l) == x.subrange(i + k, i + l),
{
    assert(x.subrange(i, j).subrange(k, l) =~= x.subrange(i + k, i + l));
}

proof fn lemma_be16(b: Seq<u8>, p: int, v: u16)
    requires
        0 <= p,
        p + 2 <= b.len(),
        b.subrange(p, p + 2) == u16be(v),
    ensures
        be16(b, p) == v,
{
    assert(b[p] == b.subrange(p, p + 2)[0]);
    assert(b[p + 1] == b.subrange(p, p + 2)[1]);
}

proof fn lemma_be32(b: Seq<u8>, p: int, v: u32)
    requires
        0 <= p,
        p + 4 <= b.len(),
        b.subrange(p, p + 4) == u32be(v),
    ensures
        be32(b, p) == v,
{
    assert(b[p] == b.subrange(p, p + 4)[0]);
    assert(b[p + 1] == b.subrange(p, p + 4)[1]);
    assert(b[p + 2] == b.subrange(p, p + 4)[2]);
    assert(b[p + 3] == b.subrange(p, p + 4)[3]);
}

proof fn lemma_row_lengths(rows: spec_fn(int) -> Seq<u8>, n: int, k: int)
    requires
        0 <= k < n,
    ensures
        row_lengths(rows, n).len() == 2 * n,
        row_lengths(rows, n).subrange(2 * k, 2 * k + 2) == u16be(rows(k).len() as u16),
    decreases n,
{
    lemma_row_lengths_len(rows, n);
    if k < n - 1 {
        lemma_row_lengths(rows, n - 1, k);
        lemma_row_lengths_len(rows, n - 1);
        assert(row_lengths(rows, n).subrange(2 * k, 2 * k + 2) =~= row_lengths(rows, n - 1).subrange(
            2 * k,
            2 * k + 2,
        ));
    } else {
        lemma_row_lengths_len(rows, n - 1);
        assert(row_lengths(rows, n).subrange(2 * k, 2 * k + 2) =~= u16be(rows(k).len() as u16));
    }
}

proof fn lemma_row_lengths_len(rows: spec_fn(int) -> Seq<u8>, n: int)
    requires
        0 <= n,
    ensures
        row_lengths(rows, n).len() == 2 * n,
    decreases n,
{
    if n > 0 {
        lemma_row_lengths_len(rows, n - 1);
    }
}

/// The first `k` rows are a prefix of the first `n`.
proof fn lemma_row_bytes_prefix(rows: spec_fn(int) -> Seq<u8>, n: int, k: int)
    requires
        0 <= k <= n,
    ensures
        row_bytes(rows, k).len() <= row_bytes(rows, n).len(),
        row_bytes(rows, n).subrange(0, row_bytes(rows, k).len() as int) == row_bytes(rows, k),
    decreases n,
{
    if k < n {
        lemma_row_bytes_prefix(rows, n - 1, k);
        assert(row_bytes(rows, n).subrange(0, row_bytes(rows, k).len() as int) =~= row_bytes(
            rows,
            n - 1,
        ).subrange(0, row_bytes(rows, k).len() as int));
    } else {
        assert(row_bytes(rows, n).subrange(0, row_bytes(rows, k).len() as int) =~= row_bytes(
            rows,
            n,
        ));
    }
}

/// Channel `c` of every pixel of an RGBA buffer.
pub open spec fn channel_plane(rgba: Seq<u8>, n: nat, c: int) -> Seq<u8> {
    Seq::new(n, |i: int| rgba[i * 4 + c])
}

/// Reading back the packed rows of channel `c` gives the channel's plane.
proof fn lemma_read_channel_rows(
    b: Seq<u8>,
    q0: int,
    cp: int,
    rgba: Seq<u8>,
    w: nat,
    h: nat,
    c: int,
    k: int,
)
    requires
        1 <= w <= MAX_SIDE,
        0 <= c < 4,
        0 <= k <= h,
        0 <= cp,
        cp + 2 * h <= b.len(),
        b.subrange(cp, cp + 2 * h) == row_lengths(packed_channel_rows(rgba, w, c), h as int),
        0 <= q0,
        q0 + row_bytes(packed_channel_rows(rgba, w, c), h as int).len() <= b.len(),
        b.subrange(q0, q0 + row_bytes(packed_channel_rows(rgba, w, c), h as int).len()) == row_bytes(
            packed_channel_rows(rgba, w, c),
            h as int,
        ),
    ensures
        spec_read_rows(
            b,
            q0 + row_bytes(packed_channel_rows(rgba, w, c), k).len(),
            cp,
            w as int,
            h as int,
            k,
            channel_plane(rgba, w * h, c).take(k * w),
        ) == Ok::<(Seq<u8>, int), crate::psd::PsdError>(
            (
                channel_plane(rgba, w * h, c),
                q0 + row_bytes(packed_channel_rows(rgba, w, c), h as int).len(),
            ),
        ),
    decreases h - k,
{
    let rows = packed_channel_rows(rgba, w, c);
    let plane = channel_plane(rgba, w * h, c);
    assert(k * w <= w * h) by (nonlinear_arith)
        requires
            0 <= k <= h,
            w >= 0,
    ;
    if k == h {
        assert(h * w == w * h) by (nonlinear_arith);
        assert(plane.take(k * w) =~= plane);
    } else {
        let row = channel_row(rgba, w, c, k);
        lemma_packbits_len(row, 0);
        lemma_packbits_round_trip(row);
        assert(rows(k) == spec_packbits(row));
        let len = rows(k).len();
        // the row length
        lemma_row_lengths(rows, h as int, k);
        lemma_sub_sub(b, cp, cp + 2 * h, 2 * k, 2 * k + 2);
        lemma_be16(b, cp + 2 * k, len as u16);
        assert(be16(b, cp + 2 * k) == len);
        // the row data
        let q = q0 + row_bytes(rows, k).len();
        lemma_row_bytes_prefix(rows, h as int, k + 1);
        lemma_row_bytes_prefix(rows, k + 1, k);
        let rbh = row_bytes(rows, h as int);
        let rb1 = row_bytes(rows, k + 1);
        assert(rb1 == row_bytes(rows, k) + rows(k));
        assert(rb1.subrange(row_bytes(rows, k).len() as int, rb1.len() as int) =~= rows(k));
        lemma_sub_sub(b, q0, q0 + rbh.len(), 0, rb1.len() as int);
        lemma_sub_sub(b, q0, q0 + rb1.len(), row_bytes(rows, k).len() as int, rb1.len() as int);
        assert(b.subrange(q, q + len) == rows(k));
        assert(plane.take(k * w) + row =~= plane.take((k + 1) * w)) by {
            assert((k + 1) * w == k * w + w) by (nonlinear_arith);
            assert((k + 1) * w <= w * h) by (nonlinear_arith)
                requires
                    k + 1 <= h,
                    w >= 0,
            ;
            assert forall|x: int| 0 <= x < w implies row[x] == plane[k * w + x] by {
                assert(k * w + x == k * w + x);
            }
        }
        lemma_read_channel_rows(b, q0, cp, rgba, w, h, c, k + 1);
    }
}

/// Byte offset of channel `c` inside the merged channels.
spec fn channel_offset(rgba: Seq<u8>, w: nat, h: nat, c: int) -> int {
    merged_channels(rgba, w, h, c).len() as int
}

proof fn lemma_merged_prefix(rgba: Seq<u8>, w: nat, h: nat, n: int, k: int)
    requires
        0 <= k <= n,
    ensures
        merged_channels(rgba, w, h, k).len() <= merged_channels(rgba, w, h, n).len(),
        merged_channels(rgba, w, h, n).subrange(0, merged_channels(rgba, w, h, k).len() as int)
            == merged_channels(rgba, w, h, k),
    decreases n,
{
    if k < n {
        lemma_merged_prefix(rgba, w, h, n - 1, k);
        assert(merged_channels(rgba, w, h, n).subrange(
            0,
            merged_channels(rgba, w, h, k).len() as int,
        ) =~= merged_channels(rgba, w, h, n - 1).subrange(
            0,
            merged_channels(rgba, w, h, k).len() as int,
        ));
    } else {
        assert(merged_channels(rgba, w, h, n).subrange(
            0,
            merged_channels(rgba, w, h, k).len() as int,
        ) =~= merged_channels(rgba, w, h, n));
    }
}

/// Reading back the merged channels gives one plane per channel.
proof fn lemma_read_merged_planes(b: Seq<u8>, p: int, rgba: Seq<u8>, w: nat, h: nat, c: int)
    requires
        1 <= w <= MAX_SIDE,
        1 <= h <= MAX_SIDE,
        0 <= c <= 4,
        0 <= p,
        p + merged_channels(rgba, w, h, 4).len() <= b.len(),
        b.subrange(p, p + merged_channels(rgba, w, h, 4).len()) == merged_channels(rgba, w, h, 4),
    ensures
        spec_read_planes(
            b,
            p + merged_channels(rgba, w, h, c).len(),
            4,
            w as int,
            h as int,
            1,
            Seq::new(c as nat, |j: int| channel_plane(rgba, w * h, j)),
        ) == Ok::<(Seq<Seq<u8>>, int), crate::psd::PsdError>(
            (
                Seq::new(4, |j: int| channel_plane(rgba, w * h, j)),
                p + merged_channels(rgba, w, h, 4).len(),
            ),
        ),
    decreases 4 - c,
{
    let all = Seq::new(4, |j: int| channel_plane(rgba, w * h, j));
    if c == 4 {
        assert(Seq::new(c as nat, |j: int| channel_plane(rgba, w * h, j)) =~= all);
    } else {
        let rows = packed_channel_rows(rgba, w, c);
        let mc = merged_channels(rgba, w, h, c);
        let mc1 = merged_channels(rgba, w, h, c + 1);
        let rl = row_lengths(rows, h as int);
        let rb = row_bytes(rows, h as int);
        assert(mc1 == mc + rl + rb);
        lemma_row_lengths_len(rows, h as int);
        lemma_merged_prefix(rgba, w, h, 4, c + 1);
        let cp = p + mc.len();
        let q0 = cp + 2 * h;
        let m4 = merged_channels(rgba, w, h, 4);
        lemma_sub_sub(b, p, p + m4.len(), 0, mc1.len() as int);
        // lengths and data of this channel inside the stream
        assert(mc1.subrange(mc.len() as int, (mc.len() + rl.len()) as int) =~= rl);
        assert(mc1.subrange((mc.len() + rl.len()) as int, mc1.len() as int) =~= rb);
        lemma_sub_sub(b, p, p + mc1.len(), mc.len() as int, (mc.len() + rl.len()) as int);
        lemma_sub_sub(b, p, p + mc1.len(), (mc.len() + rl.len()) as int, mc1.len() as int);
        assert(b.subrange(cp, cp + 2 * h) == rl);
        assert(b.subrange(q0, q0 + rb.len()) == rb);
        assert(w * h <= 900_000_000) by (nonlinear_arith)
            requires
                1 <= w <= 30000,
                1 <= h <= 30000,
        ;
        assert(0 * w == 0);
        assert(channel_plane(rgba, w * h, c).take(0) =~= Seq::<u8>::empty());
        assert(row_bytes(rows, 0).len() == 0);
        lemma_read_channel_rows(b, q0, cp, rgba, w, h, c, 0);
        assert(spec_read_plane(b, cp, w as int, h as int, 1) == Ok::<(Seq<u8>, int), crate::psd::PsdError>(
            (channel_plane(rgba, w * h, c), q0 + rb.len()),
        ));
        assert(Seq::new(c as nat, |j: int| channel_plane(rgba, w * h, j)).push(
            channel_plane(rgba, w * h, c),
        ) =~= Seq::new((c + 1) as nat, |j: int| channel_plane(rgba, w * h, j)));
        assert(q0 + rb.len() == p + mc1.len());
        lemma_read_merged_planes(b, p, rgba, w, h, c + 1);
    }
}

proof fn lemma_flat_header(w: nat, h: nat, rgba: Seq<u8>)
    requires
        1 <= w <= MAX_SIDE,
        1 <= h <= MAX_SIDE,
    ensures
        ({
            let b = spec_write(w, h, rgba);
            let m4 = merged_channels(rgba, w, h, 4);
            &&& b.len() == 40 + m4.len()
            &&& b.subrange(0, 4) == psd_signature()
            &&& be16(b, 4) == 1
            &&& be16(b, 12) == 4
            &&& be32(b, 14) == h
            &&& be32(b, 18) == w
            &&& be16(b, 22) == 8
            &&& be16(b, 24) == 3
            &&& be32(b, 26) == 0
            &&& be32(b, 30) == 0
            &&& be32(b, 34) == 0
            &&& be16(b, 38) == 1
            &&& b.subrange(40, (40 + m4.len()) as int) == m4
        }),
{
    let b = spec_write(w, h, rgba);
    let hd = spec_header(w, h, 4);
    let ms = spec_merged_section(rgba, w, h);
    let pre = hd + u32be(0) + u32be(0) + u32be(0);
    assert(hd.len() == 26);
    assert(pre.len() == 38);
    assert(b == pre + ms);
    assert(b.subrange(0, 4) =~= psd_signature());
    assert(b.subrange(4, 6) =~= u16be(1));
    lemma_be16(b, 4, 1);
    assert(b.subrange(12, 14) =~= u16be(4));
    lemma_be16(b, 12, 4);
    assert(b.subrange(14, 18) =~= u32be(h as u32));
    lemma_be32(b, 14, h as u32);
    assert(b.subrange(18, 22) =~= u32be(w as u32));
    lemma_be32(b, 18, w as u32);
    assert(b.subrange(22, 24) =~= u16be(8));
    lemma_be16(b, 22, 8);
    assert(b.subrange(24, 26) =~= u16be(3));
    lemma_be16(b, 24, 3);
    assert(b.subrange(26, 30) =~= u32be(0));
    lemma_be32(b, 26, 0);
    assert(b.subrange(30, 34) =~= u32be(0));
    lemma_be32(b, 30, 0);
    assert(b.subrange(34, 38) =~= u32be(0));
    lemma_be32(b, 34, 0);
    assert(b.subrange(38, 40) =~= u16be(1));
    lemma_be16(b, 38, 1);
    let m4 = merged_channels(rgba, w, h, 4);
    assert(b.subrange(40, (40 + m4.len()) as int) =~= m4);
}

proof fn lemma_flat_merged(w: nat, h: nat, rgba: Seq<u8>)
    requires
        1 <= w <= MAX_SIDE,
        1 <= h <= MAX_SIDE,
        rgba.len() == w * h * 4,
    ensures
        spec_read_merged(spec_write(w, h, rgba), 38, 4, w as int, h as int) == Ok::<ImageModel, crate::psd::PsdError>(
            ImageModel { width: w, height: h, pixels: rgba },
        ),
{
    let b = spec_write(w, h, rgba);
    lemma_flat_header(w, h, rgba);
    assert(Seq::new(0, |j: int| channel_plane(rgba, w * h, j)) =~= Seq::<Seq<u8>>::empty());
    assert(merged_channels(rgba, w, h, 0).len() == 0);
    lemma_read_merged_planes(b, 40, rgba, w, h, 0);
    let planes = Seq::new(4, |j: int| channel_plane(rgba, w * h, j));
    assert(merge_planes(planes, 4, (w * h) as int) =~= rgba) by {
        assert forall|k: int| 0 <= k < rgba.len() implies merge_planes(planes, 4, (w * h) as int)[k]
            == rgba[k] by {
            assert(k / 4 < w * h);
            assert((k / 4) * 4 + k % 4 == k);
        }
    }
}

/// A flat PSD written by `write` reads back with no layers and with exactly
/// the image that was written.
pub proof fn lemma_write_read_round_trip(w: nat, h: nat, rgba: Seq<u8>)
    requires
        1 <= w <= MAX_SIDE,
        1 <= h <= MAX_SIDE,
        rgba.len() == w * h * 4,
    ensures
        spec_read_file(spec_write(w, h, rgba)) == Ok::<FileModel, crate::psd::PsdError>(
            FileModel {
                width: w,
                height: h,
                layers: Seq::empty(),
                merged: ImageModel { width: w, height: h, pixels: rgba },
            },
        ),
{
    let b = spec_write(w, h, rgba);
    lemma_flat_header(w, h, rgba);
    lemma_flat_merged(w, h, rgba);
    assert(spec_read_layers(b, 38, 38) == Ok::<Seq<crate::psd::LayerModel>, crate::psd::PsdError>(
        Seq::empty(),
    ));
}

/// The merged section written at `p` reads back as the image.
pub(crate) proof fn lemma_read_merged_section(b: Seq<u8>, p: int, w: nat, h: nat, rgba: Seq<u8>)
    requires
        1 <= w <= MAX_SIDE,
        1 <= h <= MAX_SIDE,
        rgba.len() == w * h * 4,
        0 <= p,
        p + spec_merged_section(rgba, w, h).len() <= b.len(),
        b.subrange(p, p + spec_merged_section(rgba, w, h).len()) == spec_merged_section(rgba, w, h),
    ensures
        spec_read_merged(b, p, 4, w as int, h as int) == Ok::<ImageModel, crate::psd::PsdError>(
            ImageModel { width: w, height: h, pixels: rgba },
        ),
{
    let ms = spec_merged_section(rgba, w, h);
    let m4 = merged_channels(rgba, w, h, 4);
    assert(ms == u16be(1) + m4);
    lemma_sub_sub(b, p, p + ms.len(), 0, 2);
    assert(ms.subrange(0, 2) =~= u16be(1));
    lemma_be16(b, p, 1);
    lemma_sub_sub(b, p, p + ms.len(), 2, ms.len() as int);
    assert(ms.subrange(2, ms.len() as int) =~= m4);
    assert(Seq::new(0, |j: int| channel_plane(rgba, w * h, j)) =~= Seq::<Seq<u8>>::empty());
    assert(merged_channels(rgba, w, h, 0).len() == 0);
    lemma_read_merged_planes(b, p + 2, rgba, w, h, 0);
    let planes = Seq::new(4, |j: int| channel_plane(rgba, w * h, j));
    assert(merge_planes(planes, 4, (w * h) as int) =~= rgba) by {
        assert forall|k: int| 0 <= k < rgba.len() implies merge_planes(planes, 4, (w * h) as int)[k]
            == rgba[k] by {
            assert(k / 4 < w * h);
            assert((k / 4) * 4 + k % 4 == k);
        }
    }
}

} // verus!
