//! What the pixel operations do, stated pixel by pixel in terms of the
//! colours and coordinates they start from: painting one colour over
//! another, merging a layer down, the fill and the magic wand, tone curves
//! and mirroring.
use crate::doc::{px4, spec_over};
use crate::editor::{merged, spec_end_stroke, AppView};
use crate::editor_layers::spec_app_merge_down;
use crate::document::{
    lemma_byte_place, lemma_pixel_inside, spec_crop, spec_flip_layer, spec_mirror, spec_resize, spec_rotate, DocView,
};
use crate::raster::{curved, CurveChannel, close_flags, fill_paints, fill_takes, near_flags, replaced, spec_flood_fill, wand_takes};
use crate::region::{cell_ok, in_region, region_path};
use vstd::prelude::*;

verus! {

/// Source-over in eight bits: a fully transparent colour leaves the pixel
/// as it was, a fully opaque one replaces it, and a colour of alpha `a`
/// strictly between over an opaque pixel gives an opaque pixel whose every
/// colour channel is the mix `(c * a + d * (255 - a)) / 255`, between the
/// two colours.
pub proof fn lemma_over_laws(d: [u8; 4], c: [u8; 4])
    ensures
        c[3] == 0 ==> spec_over(d, c) == d,
        c[3] == 255 ==> spec_over(d, c) == [c[0], c[1], c[2], 255u8],
        d[3] == 0 && c[3] != 0 ==> spec_over(d, c) == c,
        0 < c[3] < 255 && d[3] != 0 ==> spec_over(d, c)[3] == c[3] + d[3] * (255 - c[3]) / 255,
        d[3] == 255 && 0 < c[3] < 255 ==> {
            let r = spec_over(d, c);
            let a = c[3] as int;
            &&& r[3] == 255
            &&& forall|k: int|
                0 <= k < 3 ==> #[trigger] r[k] == (c[k] * a + d[k] * (255 - a)) / 255 && (c[k] <= r[k] <= d[k] || d[k]
                    <= r[k] <= c[k])
        },
{
    if 0 < c[3] < 255 && d[3] != 0 {
        let a = c[3] as int;
        let da = d[3] as int;
        assert(da * (255 - a) / 255 <= 255 - a) by (nonlinear_arith)
            requires
                0 < da <= 255,
                0 < a < 255,
        {
            assert(da * (255 - a) <= 255 * (255 - a));
            vstd::arithmetic::div_mod::lemma_div_is_ordered(da * (255 - a), 255 * (255 - a), 255);
            vstd::arithmetic::div_mod::lemma_div_by_multiple(255 - a, 255);
        }
    }
    if d[3] == 255 && 0 < c[3] < 255 {
        let a = c[3] as int;
        let inv = 255 - a;
        assert(a + 255 * inv / 255 == 255);
        assert forall|k: int| 0 <= k < 3 implies #[trigger] spec_over(d, c)[k] == (c[k] * a + d[k] * (255 - a)) / 255
            && (c[k] <= spec_over(d, c)[k] <= d[k] || d[k] <= spec_over(d, c)[k] <= c[k]) by {
            let ck = c[k] as int;
            let dk = d[k] as int;
            let num = ck * a + dk * inv;
            assert(ck * a * 255 + dk * 255 * inv == num * 255) by (nonlinear_arith)
                requires
                    num == ck * a + dk * inv,
            ;
            assert(0 <= ck * a && 0 <= dk * inv) by (nonlinear_arith)
                requires
                    0 <= ck,
                    0 <= dk,
                    0 < a,
                    0 < inv,
            ;
            vstd::arithmetic::div_mod::lemma_div_denominator(num * 255, 255, 255);
            vstd::arithmetic::div_mod::lemma_div_by_multiple(num, 255);
            assert((ck * a * 255 + dk * 255 * inv) / (255int * 255int) == num / 255);
            let lo = if ck <= dk { ck } else { dk };
            let hi = if ck <= dk { dk } else { ck };
            assert(lo * 255 <= num <= hi * 255) by (nonlinear_arith)
                requires
                    num == ck * a + dk * inv,
                    lo <= ck <= hi,
                    lo <= dk <= hi,
                    0 < a,
                    0 < inv,
                    a + inv == 255,
            ;
            vstd::arithmetic::div_mod::lemma_div_by_multiple(lo, 255);
            vstd::arithmetic::div_mod::lemma_div_by_multiple(hi, 255);
            vstd::arithmetic::div_mod::lemma_div_is_ordered(lo * 255, num, 255);
            vstd::arithmetic::div_mod::lemma_div_is_ordered(num, hi * 255, 255);
        }
    }
}

/// Merging the active layer down paints each of its pixels over the pixel
/// beneath by source-over with the upper pixel's own alpha: byte `c` of
/// pixel `i` of the merged layer is byte `c` of `spec_over(lower pixel,
/// upper pixel)`. (With `lemma_over_laws`: a half-transparent upper pixel
/// over an opaque one gives a mix of the two colours.)
pub proof fn lemma_merge_down_is_source_over(s0: AppView, i: int, c: int)
    requires
        spec_end_stroke(s0).doc.active > 0,
        spec_end_stroke(s0).doc.active < spec_end_stroke(s0).doc.layers.len(),
        0 <= i,
        (i + 1) * 4 <= spec_end_stroke(s0).doc.layers[spec_end_stroke(s0).doc.active - 1].pixels.len(),
        0 <= c < 4,
    ensures
        ({
            let s = spec_end_stroke(s0);
            let a = s.doc.active as int;
            let under = s.doc.layers[a - 1].pixels;
            let top = s.doc.layers[a].pixels;
            spec_app_merge_down(s0).doc.layers[a - 1].pixels[i * 4 + c] == spec_over(
                [under[i * 4], under[i * 4 + 1], under[i * 4 + 2], under[i * 4 + 3]],
                [top[i * 4], top[i * 4 + 1], top[i * 4 + 2], top[i * 4 + 3]],
            )[c]
        }),
{
    let s = spec_end_stroke(s0);
    let a = s.doc.active as int;
    let under = s.doc.layers[a - 1].pixels;
    let top = s.doc.layers[a].pixels;
    let k = i * 4 + c;
    vstd::arithmetic::div_mod::lemma_fundamental_div_mod_converse(k, 4, i, c);
    assert(merged(under, top)[k] == spec_over(
        [under[i * 4], under[i * 4 + 1], under[i * 4 + 2], under[i * 4 + 3]],
        [top[i * 4], top[i * 4 + 1], top[i * 4 + 2], top[i * 4 + 3]],
    )[c]);
    let r = spec_app_merge_down(s0);
    assert(r.doc.layers[a - 1].pixels == merged(under, top));
}

/// `|a - b|` for two bytes.
pub open spec fn byte_gap(a: u8, b: u8) -> int {
    if a >= b {
        a - b
    } else {
        b - a
    }
}

/// A cell reached by a region lies in the grid and is accepted.
proof fn lemma_region_cell(acc: Seq<bool>, w: int, h: int, sx: int, sy: int, x: int, y: int)
    requires
        in_region(acc, w, h, sx, sy, x, y),
    ensures
        0 <= x < w,
        0 <= y < h,
        acc[y * w + x],
{
    let path = choose|path: Seq<(int, int)>| #[trigger] region_path(acc, w, h, path) && path[0] == (sx, sy)
        && path.last() == (x, y);
    assert(cell_ok(acc, w, h, path[path.len() - 1].0, path[path.len() - 1].1));
}

/// Pixel `k` of a one-pixel-wide reading is pixel `(x, y)` of the canvas.
proof fn lemma_px_index(p: Seq<u8>, w: int, x: int, y: int)
    ensures
        px4(p, 1, y * w + x, 0) == px4(p, w, x, y),
{
}

/// The fill with tolerance `tol` takes a pixel only when the four channel
/// differences from the start colour, alpha included, add up to at most
/// `4 * tol`; so a transparent start never takes an opaque pixel at
/// tolerance 0.
pub proof fn lemma_fill_takes_only_close(
    p: Seq<u8>,
    w: int,
    h: int,
    sx: int,
    sy: int,
    tol: int,
    contiguous: bool,
    x: int,
    y: int,
)
    requires
        0 <= x < w,
        0 <= y < h,
        fill_takes(p, w, h, sx, sy, tol, contiguous, x, y),
    ensures
        ({
            let c = px4(p, w, x, y);
            let t = px4(p, w, sx, sy);
            byte_gap(c[0], t[0]) + byte_gap(c[1], t[1]) + byte_gap(c[2], t[2]) + byte_gap(c[3], t[3]) <= 4 * tol
        }),
{
    let t = px4(p, w, sx, sy);
    if contiguous {
        lemma_region_cell(close_flags(p, w * h, t, tol), w, h, sx, sy, x, y);
        crate::region::lemma_cell_index(w, h, x, y);
    }
    lemma_px_index(p, w, x, y);
}

/// A pixel that a fill changes was within `4 * tol` of the start colour, its
/// four channel differences (alpha included) added up.
pub proof fn lemma_fill_changes_only_close(
    p: Seq<u8>,
    w: int,
    h: int,
    sx: int,
    sy: int,
    color: [u8; 4],
    alpha: u8,
    opaque: bool,
    tol: int,
    contiguous: bool,
    x: int,
    y: int,
)
    requires
        0 <= x < w,
        0 <= y < h,
        p.len() >= w * h * 4,
        px4(spec_flood_fill(p, w, h, sx, sy, color, alpha, opaque, tol, contiguous), w, x, y) != px4(p, w, x, y),
    ensures
        ({
            let c = px4(p, w, x, y);
            let t = px4(p, w, sx, sy);
            byte_gap(c[0], t[0]) + byte_gap(c[1], t[1]) + byte_gap(c[2], t[2]) + byte_gap(c[3], t[3]) <= 4 * tol
        }),
{
    let q = spec_flood_fill(p, w, h, sx, sy, color, alpha, opaque, tol, contiguous);
    assert(fill_paints(p, w, h, sx, sy, color, alpha, opaque));
    let k = y * w + x;
    crate::region::lemma_cell_index(w, h, x, y);
    crate::document::lemma_pixel_inside(w, h, x, y);
    assert(k % w == x && k / w == y) by {
        vstd::arithmetic::div_mod::lemma_fundamental_div_mod_converse(k, w, y, x);
    }
    let f = |j: int|
        if fill_takes(p, w, h, sx, sy, tol, contiguous, j % w, j / w) {
            [color[0], color[1], color[2], alpha]
        } else {
            px4(p, 1, j, 0)
        };
    assert(q == replaced(p, w * h, f));
    if !fill_takes(p, w, h, sx, sy, tol, contiguous, x, y) {
        assert forall|c: int| 0 <= c < 4 implies #[trigger] q[k * 4 + c] == p[k * 4 + c] by {
            vstd::arithmetic::div_mod::lemma_fundamental_div_mod_converse(k * 4 + c, 4, k, c);
        }
        assert(px4(q, w, x, y) =~= px4(p, w, x, y)) by {
            assert(q[k * 4] == p[k * 4]);
            assert(q[k * 4 + 1] == p[k * 4 + 1]);
            assert(q[k * 4 + 2] == p[k * 4 + 2]);
            assert(q[k * 4 + 3] == p[k * 4 + 3]);
        }
    }
    lemma_fill_takes_only_close(p, w, h, sx, sy, tol, contiguous, x, y);
}

/// The magic wand takes a pixel only when its transparency agrees with the
/// start's and, for a pixel that is not transparent, the squared
/// differences of red, green and blue plus the squared third of the alpha
/// difference are at most `3 * tol²`; so two opaque colours 255 apart in
/// blue alone are never taken together below tolerance 148.
pub proof fn lemma_wand_takes_only_near(
    p: Seq<u8>,
    w: int,
    h: int,
    sx: int,
    sy: int,
    tol: int,
    contiguous: bool,
    x: int,
    y: int,
)
    requires
        0 <= x < w,
        0 <= y < h,
        wand_takes(p, w, h, sx, sy, tol, contiguous, x, y),
    ensures
        ({
            let c = px4(p, w, x, y);
            let t = px4(p, w, sx, sy);
            &&& (c[3] == 0) == (t[3] == 0)
            &&& c[3] != 0 ==> (c[0] - t[0]) * (c[0] - t[0]) + (c[1] - t[1]) * (c[1] - t[1]) + (c[2] - t[2]) * (
            c[2] - t[2]) + (byte_gap(c[3], t[3]) / 3) * (byte_gap(c[3], t[3]) / 3) <= 3 * tol * tol
        }),
{
    let t = px4(p, w, sx, sy);
    if contiguous {
        lemma_region_cell(near_flags(p, w * h, t, tol), w, h, sx, sy, x, y);
        crate::region::lemma_cell_index(w, h, x, y);
    }
    lemma_px_index(p, w, x, y);
    assert(3 * tol * tol == tol * tol * 3) by (nonlinear_arith);
}

/// A tone curve on one channel maps exactly that byte of every pixel
/// through the table (red byte 0, green byte 1, blue byte 2) and leaves the
/// other three as they were; on all three colours it maps bytes 0, 1 and 2.
/// Alpha, byte 3, never changes.
pub proof fn lemma_curve_maps_its_channel(p: Seq<u8>, ch: CurveChannel, lut: [u8; 256], k: int)
    requires
        0 <= k,
        k * 4 + 4 <= p.len(),
    ensures
        ({
            let q0 = curved(p, ch, lut, k * 4);
            let q1 = curved(p, ch, lut, k * 4 + 1);
            let q2 = curved(p, ch, lut, k * 4 + 2);
            let q3 = curved(p, ch, lut, k * 4 + 3);
            let (p0, p1, p2, p3) = (p[k * 4], p[k * 4 + 1], p[k * 4 + 2], p[k * 4 + 3]);
            &&& q3 == p3
            &&& ch == CurveChannel::Red ==> q0 == lut[p0 as int] && q1 == p1 && q2 == p2
            &&& ch == CurveChannel::Green ==> q0 == p0 && q1 == lut[p1 as int] && q2 == p2
            &&& ch == CurveChannel::Blue ==> q0 == p0 && q1 == p1 && q2 == lut[p2 as int]
            &&& ch == CurveChannel::Rgb ==> q0 == lut[p0 as int] && q1 == lut[p1 as int] && q2 == lut[p2 as int]
        }),
{
    vstd::arithmetic::div_mod::lemma_fundamental_div_mod_converse(k * 4, 4, k, 0);
    vstd::arithmetic::div_mod::lemma_fundamental_div_mod_converse(k * 4 + 1, 4, k, 1);
    vstd::arithmetic::div_mod::lemma_fundamental_div_mod_converse(k * 4 + 2, 4, k, 2);
    vstd::arithmetic::div_mod::lemma_fundamental_div_mod_converse(k * 4 + 3, 4, k, 3);
    let n = p.len() as int;
    vstd::arithmetic::div_mod::lemma_fundamental_div_mod(n, 4);
    assert(k + 1 <= n / 4);
    assert(k * 4 + 4 <= n / 4 * 4) by (nonlinear_arith)
        requires
            k + 1 <= n / 4,
    ;
}

/// Mirroring layer `index` puts at `(x, y)` the old pixel of that layer at
/// `(w - 1 - x, y)` when horizontal, and at `(x, h - 1 - y)` (the same
/// column) when vertical.
pub proof fn lemma_flip_layer_places(d: DocView, index: int, horizontal: bool, x: int, y: int, c: int)
    requires
        0 <= index < d.layers.len(),
        0 <= x < d.width,
        0 <= y < d.height,
        0 <= c < 4,
    ensures
        ({
            let w = d.width as int;
            let h = d.height as int;
            let (ox, oy) = if horizontal { (w - 1 - x, y) } else { (x, h - 1 - y) };
            &&& spec_flip_layer(d, index, horizontal).layers[index].pixels[(y * w + x) * 4 + c]
                == d.layers[index].pixels[(oy * w + ox) * 4 + c]
            &&& spec_flip_layer(d, index, horizontal).layers[index].pixels.len() == w * h * 4
        }),
{
    let w = d.width as int;
    let h = d.height as int;
    lemma_byte_place(w, x, y, c);
    lemma_pixel_inside(w, h, x, y);
}

/// Mirroring the document puts at `(x, y)` of every layer that layer's old
/// pixel at `(w - 1 - x, y)` when horizontal, and at `(x, h - 1 - y)` (the
/// same column) when vertical; the canvas keeps its size.
pub proof fn lemma_mirror_places(d: DocView, i: int, horizontal: bool, x: int, y: int, c: int)
    requires
        0 <= i < d.layers.len(),
        0 <= x < d.width,
        0 <= y < d.height,
        0 <= c < 4,
    ensures
        ({
            let w = d.width as int;
            let h = d.height as int;
            let (ox, oy) = if horizontal { (w - 1 - x, y) } else { (x, h - 1 - y) };
            &&& spec_mirror(d, horizontal).width == d.width
            &&& spec_mirror(d, horizontal).height == d.height
            &&& spec_mirror(d, horizontal).layers[i].pixels[(y * w + x) * 4 + c] == d.layers[i].pixels[(oy * w
                + ox) * 4 + c]
        }),
{
    let w = d.width as int;
    let h = d.height as int;
    lemma_byte_place(w, x, y, c);
    lemma_pixel_inside(w, h, x, y);
}

/// Without `contiguous` the fill takes exactly the pixels whose four
/// channel differences from the start colour add up to at most `4 * tol`.
pub proof fn lemma_global_fill_takes_close(p: Seq<u8>, w: int, h: int, sx: int, sy: int, tol: int, x: int, y: int)
    ensures
        fill_takes(p, w, h, sx, sy, tol, false, x, y) <==> ({
            let c = px4(p, w, x, y);
            let t = px4(p, w, sx, sy);
            byte_gap(c[0], t[0]) + byte_gap(c[1], t[1]) + byte_gap(c[2], t[2]) + byte_gap(c[3], t[3]) <= 4 * tol
        }),
{
}

/// Without `contiguous` the wand takes exactly the pixels whose
/// transparency agrees with the start's and, when not transparent, whose
/// squared red, green and blue differences plus the squared third of the
/// alpha difference are at most `3 * tol²`.
pub proof fn lemma_global_wand_takes_near(p: Seq<u8>, w: int, h: int, sx: int, sy: int, tol: int, x: int, y: int)
    ensures
        wand_takes(p, w, h, sx, sy, tol, false, x, y) <==> ({
            let c = px4(p, w, x, y);
            let t = px4(p, w, sx, sy);
            &&& (c[3] == 0) == (t[3] == 0)
            &&& c[3] != 0 ==> (c[0] - t[0]) * (c[0] - t[0]) + (c[1] - t[1]) * (c[1] - t[1]) + (c[2] - t[2]) * (
            c[2] - t[2]) + (byte_gap(c[3], t[3]) / 3) * (byte_gap(c[3], t[3]) / 3) <= 3 * tol * tol
        }),
{
    assert(3 * tol * tol == tol * tol * 3) by (nonlinear_arith);
}

/// A half turn keeps the canvas size and puts old pixel `(x, y)` of every
/// layer at `(w - 1 - x, h - 1 - y)`.
pub proof fn lemma_rotate_half_places(d: DocView, i: int, x: int, y: int, c: int)
    requires
        0 <= i < d.layers.len(),
        0 <= x < d.width,
        0 <= y < d.height,
        0 <= c < 4,
    ensures
        spec_rotate(d, 2).width == d.width,
        spec_rotate(d, 2).height == d.height,
        spec_rotate(d, 2).layers[i].pixels[((d.height - 1 - y) * d.width + (d.width - 1 - x)) * 4 + c]
            == d.layers[i].pixels[(y * d.width + x) * 4 + c],
{
    let w = d.width as int;
    let h = d.height as int;
    lemma_byte_place(w, w - 1 - x, h - 1 - y, c);
    lemma_pixel_inside(w, h, w - 1 - x, h - 1 - y);
}

/// Three quarter turns clockwise swap the canvas sides and put old pixel
/// `(x, y)` of every layer at `(y, w - 1 - x)`.
pub proof fn lemma_rotate_three_places(d: DocView, i: int, x: int, y: int, c: int)
    requires
        0 <= i < d.layers.len(),
        0 <= x < d.width,
        0 <= y < d.height,
        0 <= c < 4,
    ensures
        spec_rotate(d, 3).width == d.height,
        spec_rotate(d, 3).height == d.width,
        spec_rotate(d, 3).layers[i].pixels[((d.width - 1 - x) * d.height + y) * 4 + c] == d.layers[i].pixels[(y
            * d.width + x) * 4 + c],
{
    let w = d.width as int;
    let h = d.height as int;
    lemma_byte_place(h, y, w - 1 - x, c);
    lemma_pixel_inside(h, w, y, w - 1 - x);
}

/// Cropping to the `w`×`h` frame at `(x0, y0)` inside the canvas gives a
/// canvas of that size whose pixel `(x, y)` is the old pixel
/// `(x0 + x, y0 + y)`.
pub proof fn lemma_crop_places(d: DocView, x0: nat, y0: nat, w: nat, h: nat, i: int, x: int, y: int, c: int)
    requires
        1 <= w,
        1 <= h,
        x0 + w <= d.width <= usize::MAX,
        y0 + h <= d.height <= usize::MAX,
        0 <= i < d.layers.len(),
        d.layers[i].pixels.len() == d.width * d.height * 4,
        0 <= x < w,
        0 <= y < h,
        0 <= c < 4,
    ensures
        spec_crop(d, x0, y0, w, h).width == w,
        spec_crop(d, x0, y0, w, h).height == h,
        spec_crop(d, x0, y0, w, h).layers[i].pixels[(y * w + x) * 4 + c] == d.layers[i].pixels[((y0 + y) * d.width
            + (x0 + x)) * 4 + c],
{
    lemma_byte_place(w as int, x, y, c);
    lemma_pixel_inside(w as int, h as int, x, y);
}

/// Resizing the canvas to `w`×`h` keeps each pixel `(x, y)` that lies on
/// both canvases where it was; the new part is transparent.
pub proof fn lemma_resize_places(d: DocView, w: nat, h: nat, i: int, x: int, y: int, c: int)
    requires
        0 <= i < d.layers.len(),
        d.layers[i].pixels.len() == d.width * d.height * 4,
        0 <= x < w,
        0 <= y < h,
        0 <= c < 4,
    ensures
        spec_resize(d, w, h).width == w,
        spec_resize(d, w, h).height == h,
        spec_resize(d, w, h).layers[i].pixels[(y * w + x) * 4 + c] == if x < d.width && y < d.height {
            d.layers[i].pixels[(y * d.width + x) * 4 + c]
        } else {
            0u8
        },
{
    lemma_byte_place(w as int, x, y, c);
    lemma_pixel_inside(w as int, h as int, x, y);
}

} // verus!
