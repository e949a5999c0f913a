//! Raster work on layers: the clipboard fragment, selection masks, tone
//! curves, the histogram, the magic wand and the fill with tolerance.
//! Everything paints into the layer's RGBA8 buffer, source-over.
use crate::doc::{px4, put4, spec_over, Layer};
use crate::document::{remap, remapped, PixelMap};
use crate::region::{grow_region, in_region};
use vstd::prelude::*;

verus! {

/// A rectangular RGBA8 piece of a layer: the clipboard and the floating
/// fragment.
pub struct RectData {
    pub w: usize,
    pub h: usize,
    pub pixels: Vec<u8>,
}

impl RectData {
    pub fn width(&self) -> (r: usize)
        ensures
            r == self.w,
    {
        self.w
    }

    pub fn height(&self) -> (r: usize)
        ensures
            r == self.h,
    {
        self.h
    }
}

/// The footprint of a brush dab: round, elliptic or square.
#[derive(Clone, Copy, PartialEq, Eq, Debug, Structural)]
pub enum Shape {
    Round,
    Ellipse,
    Square,
}

/// Which channel a tone curve edits.
#[derive(Clone, Copy, PartialEq, Eq, Debug, Structural)]
pub enum CurveChannel {
    /// All three channels at once.
    Rgb,
    Red,
    Green,
    Blue,
}

/// Every curve channel, in menu order.
pub const CURVE_CHANNELS: [CurveChannel; 4] = [
    CurveChannel::Rgb,
    CurveChannel::Red,
    CurveChannel::Green,
    CurveChannel::Blue,
];

pub open spec fn spec_curve_channel_name(c: CurveChannel) -> Seq<char> {
    match c {
        CurveChannel::Rgb => "RGB"@,
        CurveChannel::Red => "Красный"@,
        CurveChannel::Green => "Зелёный"@,
        CurveChannel::Blue => "Синий"@,
    }
}

impl CurveChannel {
    /// Every curve channel, in menu order.
    pub const ALL: [CurveChannel; 4] = CURVE_CHANNELS;

    pub fn name(self) -> (r: &'static str)
        ensures
            r@ == spec_curve_channel_name(self),
    {
        match self {
            CurveChannel::Rgb => "RGB",
            CurveChannel::Red => "Красный",
            CurveChannel::Green => "Зелёный",
            CurveChannel::Blue => "Синий",
        }
    }
}

/// The colour sector a hue/saturation shift applies to: all, or one of six.
#[derive(Clone, Copy, PartialEq, Eq, Debug, Structural)]
pub enum HsvChannel {
    All,
    Red,
    Yellow,
    Green,
    Cyan,
    Blue,
    Magenta,
}

/// Every colour sector, in menu order.
pub const HSV_CHANNELS: [HsvChannel; 7] = [
    HsvChannel::All,
    HsvChannel::Red,
    HsvChannel::Yellow,
    HsvChannel::Green,
    HsvChannel::Cyan,
    HsvChannel::Blue,
    HsvChannel::Magenta,
];

pub open spec fn spec_hsv_channel_name(c: HsvChannel) -> Seq<char> {
    match c {
        HsvChannel::All => "Все"@,
        HsvChannel::Red => "Красные"@,
        HsvChannel::Yellow => "Жёлтые"@,
        HsvChannel::Green => "Зелёные"@,
        HsvChannel::Cyan => "Голубые"@,
        HsvChannel::Blue => "Синие"@,
        HsvChannel::Magenta => "Пурпурные"@,
    }
}

impl HsvChannel {
    /// Every colour sector, in menu order.
    pub const ALL: [HsvChannel; 7] = HSV_CHANNELS;

    pub fn name(self) -> (r: &'static str)
        ensures
            r@ == spec_hsv_channel_name(self),
    {
        match self {
            HsvChannel::All => "Все",
            HsvChannel::Red => "Красные",
            HsvChannel::Yellow => "Жёлтые",
            HsvChannel::Green => "Зелёные",
            HsvChannel::Cyan => "Голубые",
            HsvChannel::Blue => "Синие",
            HsvChannel::Magenta => "Пурпурные",
        }
    }
}

/// The rows of a `w`-wide mask that are scanned: at most `h`, and only
/// rows that are complete.
pub open spec fn mask_rows(len: nat, w: nat, h: nat) -> nat {
    let full = len / (if w == 0 { 1 } else { w });
    if h < full { h } else { full }
}

/// Pixel `(x, y)` of the mask counts as selected: it is inside the scanned
/// rows and its coverage is not zero.
pub open spec fn selected(mask: Seq<u8>, w: nat, h: nat, x: int, y: int) -> bool {
    0 <= x < w && 0 <= y < mask_rows(mask.len(), w, h) && mask[y * w + x] != 0
}

/// `(x0, y0, x1, y1)` is the smallest frame around the selected pixels.
pub open spec fn bounds_of_selection(mask: Seq<u8>, w: nat, h: nat, x0: int, y0: int, x1: int, y1: int) -> bool {
    &&& forall|x: int, y: int| selected(mask, w, h, x, y) ==> x0 <= x < x1 && y0 <= y < y1
    &&& exists|y: int| #[trigger] selected(mask, w, h, x0, y)
    &&& exists|x: int| #[trigger] selected(mask, w, h, x, y0)
    &&& exists|y: int| #[trigger] selected(mask, w, h, x1 - 1, y)
    &&& exists|x: int| #[trigger] selected(mask, w, h, x, y1 - 1)
}

/// Bounds `(x0, y0, x1, y1)` of the selected part of a mask, with `x1` and
/// `y1` one past the last selected column and row; `None` when nothing is
/// selected.
pub fn mask_bounds(mask: &[u8], w: usize, h: usize) -> (r: Option<(usize, usize, usize, usize)>)
    ensures
        r is None <==> !(exists|x: int, y: int| selected(mask@, w as nat, h as nat, x, y)),
        r matches Some(b) ==> bounds_of_selection(mask@, w as nat, h as nat, b.0 as int, b.1 as int, b.2 as int, b.3 as int),
{
    let total = mask.len();
    let ww = if w == 0 {
        1
    } else {
        w
    };
    let full = total / ww;
    let rows = if h < full {
        h
    } else {
        full
    };
    assert(rows == mask_rows(mask@.len(), w as nat, h as nat));
    assert(full * ww <= total) by (nonlinear_arith)
        requires
            full == total / ww,
            ww >= 1,
    ;
    assert(rows * ww <= full * ww) by (nonlinear_arith)
        requires
            rows <= full,
            ww >= 1,
    ;
    let mut x0: usize = 0;
    let mut y0: usize = 0;
    let mut x1: usize = 0;
    let mut y1: usize = 0;
    let mut any = false;
    let ghost mut wx0: int = 0;
    let ghost mut wy1: int = 0;
    let mut y: usize = 0;
    while y < rows
        invariant
            total == mask@.len(),
            rows == mask_rows(mask@.len(), w as nat, h as nat),
            rows * ww <= total,
            ww == if w == 0 { 1 } else { w },
            y <= rows,
            !any ==> forall|a: int, b: int| 0 <= b < y ==> !selected(mask@, w as nat, h as nat, a, b),
            any ==> {
                &&& forall|a: int, b: int| 0 <= b < y && selected(mask@, w as nat, h as nat, a, b) ==> x0 <= a
                    <= x1 && y0 <= b <= y1
                &&& exists|b: int| #[trigger] selected(mask@, w as nat, h as nat, x0 as int, b)
                &&& exists|a: int| #[trigger] selected(mask@, w as nat, h as nat, a, y0 as int)
                &&& exists|b: int| #[trigger] selected(mask@, w as nat, h as nat, x1 as int, b)
                &&& exists|a: int| #[trigger] selected(mask@, w as nat, h as nat, a, y1 as int)
                &&& y1 < y
                &&& x1 < w
            },
        decreases rows - y,
    {
        let mut x: usize = 0;
        while x < w
            invariant
                total == mask@.len(),
                rows == mask_rows(mask@.len(), w as nat, h as nat),
                rows * ww <= total,
                ww == if w == 0 { 1 } else { w },
                y < rows,
                x <= w,
                !any ==> forall|a: int, b: int| (0 <= b < y || (b == y && a < x)) ==> !selected(mask@, w as nat, h as nat, a, b),
                any ==> {
                    &&& forall|a: int, b: int| (0 <= b < y || (b == y && a < x)) && selected(mask@, w as nat, h as nat, a, b)
                        ==> x0 <= a <= x1 && y0 <= b <= y1
                    &&& exists|b: int| #[trigger] selected(mask@, w as nat, h as nat, x0 as int, b)
                    &&& exists|a: int| #[trigger] selected(mask@, w as nat, h as nat, a, y0 as int)
                    &&& exists|b: int| #[trigger] selected(mask@, w as nat, h as nat, x1 as int, b)
                    &&& exists|a: int| #[trigger] selected(mask@, w as nat, h as nat, a, y1 as int)
                    &&& y1 <= y
                    &&& x1 < w
                },
            decreases w - x,
        {
            assert(y * w + x < rows * ww) by (nonlinear_arith)
                requires
                    y < rows,
                    x < w,
                    ww == w,
            ;
            if mask[y * w + x] != 0 {
                assert(selected(mask@, w as nat, h as nat, x as int, y as int));
                if !any {
                    x0 = x;
                    y0 = y;
                    x1 = x;
                    y1 = y;
                    any = true;
                } else {
                    if x < x0 {
                        x0 = x;
                    }
                    if y < y0 {
                        y0 = y;
                    }
                    if x > x1 {
                        x1 = x;
                    }
                    if y > y1 {
                        y1 = y;
                    }
                }
            }
            x = x + 1;
        }
        y = y + 1;
    }
    if !any {
        return None;
    }
    proof {
        let wy = choose|b: int| selected(mask@, w as nat, h as nat, x1 as int, b);
        assert(selected(mask@, w as nat, h as nat, (x1 + 1) - 1, wy));
        let wx = choose|a: int| selected(mask@, w as nat, h as nat, a, y1 as int);
        assert(selected(mask@, w as nat, h as nat, wx, (y1 + 1) - 1));
        let vy = choose|b: int| selected(mask@, w as nat, h as nat, x0 as int, b);
        assert(selected(mask@, w as nat, h as nat, x0 as int, vy));
        let vx = choose|a: int| selected(mask@, w as nat, h as nat, a, y0 as int);
        assert(selected(mask@, w as nat, h as nat, vx, y0 as int));
        assert(exists|y: int| #[trigger] selected(mask@, w as nat, h as nat, x0 as int, y));
        assert(exists|x: int| #[trigger] selected(mask@, w as nat, h as nat, x, y0 as int));
        assert(exists|y: int| #[trigger] selected(mask@, w as nat, h as nat, (x1 + 1) - 1, y));
        assert(exists|x: int| #[trigger] selected(mask@, w as nat, h as nat, x, (y1 + 1) - 1));
    }
    assert(bounds_of_selection(mask@, w as nat, h as nat, x0 as int, y0 as int, x1 + 1, y1 + 1));
    Some((x0, y0, x1 + 1, y1 + 1))
}


/// `p` with its first `k` pixels replaced by `f` of their index.
pub open spec fn replaced(p: Seq<u8>, k: int, f: spec_fn(int) -> [u8; 4]) -> Seq<u8> {
    Seq::new(p.len(), |i: int| if i / 4 < k { f(i / 4)[i % 4] } else { p[i] })
}

pub(crate) proof fn lemma_replaced_step(p: Seq<u8>, k: int, f: spec_fn(int) -> [u8; 4], c: [u8; 4])
    requires
        0 <= k,
        (k + 1) * 4 <= p.len(),
        c[0] == f(k)[0],
        c[1] == f(k)[1],
        c[2] == f(k)[2],
        c[3] == f(k)[3],
    ensures
        put4(replaced(p, k, f), k * 4, c) == replaced(p, k + 1, f),
{
    let a = put4(replaced(p, k, f), k * 4, c);
    let b = replaced(p, k + 1, f);
    assert forall|i: int| 0 <= i < a.len() implies a[i] == b[i] by {
        vstd::arithmetic::div_mod::lemma_fundamental_div_mod(i, 4);
        if k * 4 <= i < k * 4 + 4 {
            vstd::arithmetic::div_mod::lemma_fundamental_div_mod_converse(i, 4, k, i - k * 4);
        }
    }
    assert(a =~= b);
}

pub(crate) proof fn lemma_replaced_untouched(p: Seq<u8>, k: int, f: spec_fn(int) -> [u8; 4])
    requires
        0 <= k,
        (k + 1) * 4 <= p.len(),
    ensures
        replaced(p, k, f)[k * 4] == p[k * 4],
        replaced(p, k, f)[k * 4 + 1] == p[k * 4 + 1],
        replaced(p, k, f)[k * 4 + 2] == p[k * 4 + 2],
        replaced(p, k, f)[k * 4 + 3] == p[k * 4 + 3],
{
    vstd::arithmetic::div_mod::lemma_fundamental_div_mod_converse(k * 4, 4, k, 0);
    vstd::arithmetic::div_mod::lemma_fundamental_div_mod_converse(k * 4 + 1, 4, k, 1);
    vstd::arithmetic::div_mod::lemma_fundamental_div_mod_converse(k * 4 + 2, 4, k, 2);
    vstd::arithmetic::div_mod::lemma_fundamental_div_mod_converse(k * 4 + 3, 4, k, 3);
}

pub(crate) proof fn lemma_replaced_zero(p: Seq<u8>, f: spec_fn(int) -> [u8; 4])
    ensures
        replaced(p, 0, f) == p,
{
    assert(replaced(p, 0, f) =~= p);
}

/// The RGBA value of pixel `(x, y)`, or transparent black outside the
/// `w`×`h` canvas (the eyedropper).
pub fn pick(layer: &Layer, w: usize, h: usize, x: i32, y: i32) -> (c: [u8; 4])
    requires
        layer.pixels@.len() >= w * h * 4,
    ensures
        c == if 0 <= x < w && 0 <= y < h {
            px4(layer.pixels@, w as int, x as int, y as int)
        } else {
            [0u8, 0u8, 0u8, 0u8]
        },
{
    if x < 0 || y < 0 || x as usize >= w || y as usize >= h {
        [0, 0, 0, 0]
    } else {
        proof {
            crate::document::lemma_pixel_inside(w as int, h as int, x as int, y as int);
        }
        layer.get(w, x as usize, y as usize)
    }
}

/// The brightness of a colour, `0..=255`, weighted 77 : 151 : 28.
pub open spec fn luma(r: u8, g: u8, b: u8) -> int {
    (r * 77 + g * 151 + b * 28) / 256
}

/// How many of the first `n` pixels of `p` are not fully transparent and
/// have brightness `v`.
pub open spec fn luma_count(p: Seq<u8>, n: int, v: int) -> nat
    decreases n,
{
    if n <= 0 {
        0
    } else {
        luma_count(p, n - 1, v) + if p[(n - 1) * 4 + 3] != 0 && luma(p[(n - 1) * 4], p[(n - 1) * 4 + 1], p[(n - 1)
            * 4 + 2]) == v {
            1nat
        } else {
            0nat
        }
    }
}

proof fn lemma_luma_count_bound(p: Seq<u8>, n: int, v: int)
    requires
        0 <= n,
    ensures
        luma_count(p, n, v) <= n,
    decreases n,
{
    if n > 0 {
        lemma_luma_count_bound(p, n - 1, v);
    }
}

/// How many pixels of the layer have each brightness; fully transparent
/// pixels are skipped.
pub fn histogram(layer: &Layer) -> (hist: [u32; 256])
    requires
        layer.pixels@.len() / 4 <= u32::MAX,
    ensures
        forall|v: int| 0 <= v < 256 ==> hist[v] == luma_count(layer.pixels@, (layer.pixels@.len() / 4) as int, v),
{
    let mut hist = [0u32; 256];
    let len = layer.pixels.len();
    let n = len / 4;
    let mut i: usize = 0;
    while i < n
        invariant
            n == layer.pixels@.len() / 4,
            len == layer.pixels@.len(),
            n <= u32::MAX,
            i <= n,
            forall|v: int| 0 <= v < 256 ==> hist[v] == luma_count(layer.pixels@, i as int, v),
        decreases n - i,
    {
        proof {
            assert forall|v: int| 0 <= v < 256 implies luma_count(layer.pixels@, i as int, v) <= i by {
                lemma_luma_count_bound(layer.pixels@, i as int, v);
            }
        }
        assert(i * 4 + 3 < len) by (nonlinear_arith)
            requires
                i < n,
                n == len / 4,
        ;
        if layer.pixels[i * 4 + 3] != 0 {
            let r = layer.pixels[i * 4] as u32;
            let g = layer.pixels[i * 4 + 1] as u32;
            let b = layer.pixels[i * 4 + 2] as u32;
            let l = ((r * 77 + g * 151 + b * 28) / 256) as usize;
            let l = if l < 255 {
                l
            } else {
                255
            };
            hist[l] = hist[l] + 1;
        }
        i = i + 1;
    }
    hist
}

/// Pixel `k` with alpha `a` after clearing a selection of coverage `cov`.
pub open spec fn cleared_alpha(a: u8, cov: u8) -> u8 {
    ((a * (255 - cov) + 127) / 255) as u8
}

/// Clears a selection in the layer according to the mask's coverage: the
/// alpha of every pixel of the `w`×`h` canvas is scaled by what the mask
/// leaves uncovered.
pub fn clear_rect_mask(layer: &mut Layer, w: usize, h: usize, mask: &[u8])
    requires
        old(layer).pixels@.len() >= w * h * 4,
        mask@.len() >= w * h,
    ensures
        final(layer).pixels@ == replaced(
            old(layer).pixels@,
            w * h,
            |k: int|
                {
                    let c = px4(old(layer).pixels@, 1, k, 0);
                    [c[0], c[1], c[2], cleared_alpha(c[3], mask@[k])]
                },
        ),
        final(layer).meta == old(layer).meta,
        final(layer).mask == old(layer).mask,
        final(layer).mask_on == old(layer).mask_on,
{
    let ghost p = old(layer).pixels@;
    let ghost f = |k: int|
        {
            let c = px4(p, 1, k, 0);
            [c[0], c[1], c[2], cleared_alpha(c[3], mask@[k])]
        };
    let len = layer.pixels.len();
    assert(w * h <= len) by (nonlinear_arith)
        requires
            len >= w * h * 4,
    ;
    let n = w * h;
    let mut k: usize = 0;
    proof {
        lemma_replaced_zero(p, f);
    }
    while k < n
        invariant
            n == w * h,
            n * 4 <= len,
            len == p.len(),
            mask@.len() >= n,
            k <= n,
            layer.pixels@ == replaced(p, k as int, f),
            forall|j: int|
                #[trigger] f(j) == {
                    let c = px4(p, 1, j, 0);
                    [c[0], c[1], c[2], cleared_alpha(c[3], mask@[j])]
                },
            layer.meta == old(layer).meta,
            layer.mask == old(layer).mask,
            layer.mask_on == old(layer).mask_on,
        decreases n - k,
    {
        let i = k * 4;
        proof {
            lemma_replaced_untouched(p, k as int, f);
        }
        let cov = mask[k] as u32;
        let a = layer.pixels[i + 3] as u32;
        assert(a * (255 - cov) <= 255 * 255) by (nonlinear_arith)
            requires
                a <= 255,
                cov <= 255,
        ;
        let na = ((a * (255 - cov) + 127) / 255) as u8;
        let c = [layer.pixels[i], layer.pixels[i + 1], layer.pixels[i + 2], na];
        layer.pixels.set(i, c[0]);
        layer.pixels.set(i + 1, c[1]);
        layer.pixels.set(i + 2, c[2]);
        layer.pixels.set(i + 3, c[3]);
        proof {
            let pk = px4(p, 1, k as int, 0);
            assert(pk[0] == p[i as int] && pk[1] == p[i + 1] && pk[2] == p[i + 2] && pk[3] == p[i + 3]);
            assert(c[3] == cleared_alpha(pk[3], mask@[k as int]));
            lemma_replaced_step(p, k as int, f, c);
            assert(layer.pixels@ =~= put4(replaced(p, k as int, f), k * 4, c));
        }
        k = k + 1;
    }
}

/// The colour painted where the mask covers `cov`: `color` with its alpha
/// scaled by the coverage.
pub open spec fn covered_color(color: [u8; 4], cov: u8) -> [u8; 4] {
    [color[0], color[1], color[2], ((color[3] * cov + 127) / 255) as u8]
}

/// Paints `color` over the layer where the mask covers it, in proportion to
/// the coverage.
pub fn fill_mask_cover(layer: &mut Layer, w: usize, h: usize, mask: &[u8], color: [u8; 4])
    requires
        old(layer).pixels@.len() >= w * h * 4,
        mask@.len() >= w * h,
    ensures
        final(layer).pixels@ == replaced(
            old(layer).pixels@,
            w * h,
            |k: int| spec_over(px4(old(layer).pixels@, 1, k, 0), covered_color(color, mask@[k])),
        ),
        final(layer).meta == old(layer).meta,
        final(layer).mask == old(layer).mask,
        final(layer).mask_on == old(layer).mask_on,
{
    let ghost p = old(layer).pixels@;
    let ghost f = |k: int| spec_over(px4(p, 1, k, 0), covered_color(color, mask@[k]));
    let len = layer.pixels.len();
    assert(w * h <= len) by (nonlinear_arith)
        requires
            len >= w * h * 4,
    ;
    let n = w * h;
    let mut k: usize = 0;
    proof {
        lemma_replaced_zero(p, f);
    }
    while k < n
        invariant
            n == w * h,
            n * 4 <= len,
            len == p.len(),
            mask@.len() >= n,
            k <= n,
            layer.pixels@ == replaced(p, k as int, f),
            forall|j: int| #[trigger] f(j) == spec_over(px4(p, 1, j, 0), covered_color(color, mask@[j])),
            layer.meta == old(layer).meta,
            layer.mask == old(layer).mask,
            layer.mask_on == old(layer).mask_on,
        decreases n - k,
    {
        let i = k * 4;
        proof {
            lemma_replaced_untouched(p, k as int, f);
            assert(px4(layer.pixels@, 1, k as int, 0) == px4(p, 1, k as int, 0));
        }
        let cov = mask[k] as u32;
        assert(color[3] * cov <= 255 * 255) by (nonlinear_arith)
            requires
                color[3] <= 255,
                cov <= 255,
        ;
        let a = ((color[3] as u32 * cov + 127) / 255) as u8;
        let ghost before = layer.pixels@;
        let cc = [color[0], color[1], color[2], a];
        layer.blend(1, k, 0, cc);
        proof {
            let cv = covered_color(color, mask@[k as int]);
            assert(cc[3] == cv[3]);
            let pk = px4(before, 1, k as int, 0);
            let o = spec_over(pk, cc);
            assert(pk == px4(p, 1, k as int, 0));
            assert(cc == cv);
            lemma_replaced_step(p, k as int, f, o);
            assert(layer.pixels@ =~= put4(replaced(p, k as int, f), k * 4, o));
        }
        k = k + 1;
    }
}

/// Byte `i` of the layer after a tone curve `lut` on channel `ch`; alpha
/// never changes, and all three colour channels change only in whole
/// pixels.
pub open spec fn curved(p: Seq<u8>, ch: CurveChannel, lut: [u8; 256], i: int) -> u8 {
    let c = i % 4;
    let applies = match ch {
        CurveChannel::Rgb => c < 3 && i < p.len() / 4 * 4,
        CurveChannel::Red => c == 0,
        CurveChannel::Green => c == 1,
        CurveChannel::Blue => c == 2,
    };
    if applies {
        lut[p[i] as int]
    } else {
        p[i]
    }
}

/// Applies a tone curve, given as a table of 256 values, to one channel or
/// to all three colour channels; alpha is not touched.
pub fn apply_curve(layer: &mut Layer, ch: CurveChannel, lut: &[u8; 256])
    ensures
        final(layer).pixels@.len() == old(layer).pixels@.len(),
        forall|i: int| 0 <= i < old(layer).pixels@.len() ==> #[trigger] final(layer).pixels@[i] == curved(
            old(layer).pixels@,
            ch,
            *lut,
            i,
        ),
        final(layer).meta == old(layer).meta,
        final(layer).mask == old(layer).mask,
        final(layer).mask_on == old(layer).mask_on,
{
    let ghost p = old(layer).pixels@;
    let len = layer.pixels.len();
    let whole = len / 4 * 4;
    let mut i: usize = 0;
    while i < len
        invariant
            len == p.len(),
            whole == p.len() / 4 * 4,
            i <= len,
            layer.pixels@.len() == len,
            forall|j: int| 0 <= j < i ==> #[trigger] layer.pixels@[j] == curved(p, ch, *lut, j),
            forall|j: int| i <= j < len ==> #[trigger] layer.pixels@[j] == p[j],
            layer.meta == old(layer).meta,
            layer.mask == old(layer).mask,
            layer.mask_on == old(layer).mask_on,
        decreases len - i,
    {
        let c = i % 4;
        let applies = match ch {
            CurveChannel::Rgb => c < 3 && i < whole,
            CurveChannel::Red => c == 0,
            CurveChannel::Green => c == 1,
            CurveChannel::Blue => c == 2,
        };
        if applies {
            let v = layer.pixels[i];
            layer.pixels.set(i, lut[v as usize]);
        }
        i = i + 1;
    }
}

/// Copies the part of a `w`-wide layer inside `clip` — `(x0, y0, x1, y1)`,
/// one past the last column and row, already held inside the canvas — to a
/// fragment of its own; no clip gives an empty fragment.
pub fn extract_rect(layer: &Layer, w: usize, h: usize, clip: Option<(usize, usize, usize, usize)>) -> (r: RectData)
    requires
        layer.pixels@.len() >= w * h * 4,
        clip matches Some(c) ==> c.0 < c.2 <= w && c.1 < c.3 <= h,
    ensures
        match clip {
            None => r.w == 0 && r.h == 0 && r.pixels@.len() == 0,
            Some(c) => r.w == c.2 - c.0 && r.h == c.3 - c.1 && r.pixels@ == remapped(
                layer.pixels@.subrange(0, w * h * 4),
                w as int,
                h as int,
                r.w as int,
                r.h as int,
                PixelMap::Shift { x0: c.0, y0: c.1 },
            ),
        },
{
    match clip {
        None => RectData { w: 0, h: 0, pixels: Vec::new() },
        Some((x0, y0, x1, y1)) => {
            let rw = x1 - x0;
            let rh = y1 - y0;
            let len = layer.pixels.len();
            assert(rw * rh * 4 <= w * h * 4) by (nonlinear_arith)
                requires
                    rw <= w,
                    rh <= h,
            ;
            let src = &layer.pixels.as_slice()[0..w * h * 4];
            let pixels = remap(src, w, h, rw, rh, PixelMap::Shift { x0, y0 });
            RectData { w: rw, h: rh, pixels }
        },
    }
}


proof fn lemma_replaced_same(p: Seq<u8>, k: int, f: spec_fn(int) -> [u8; 4])
    requires
        0 <= k,
        (k + 1) * 4 <= p.len(),
        f(k)[0] == p[k * 4],
        f(k)[1] == p[k * 4 + 1],
        f(k)[2] == p[k * 4 + 2],
        f(k)[3] == p[k * 4 + 3],
    ensures
        replaced(p, k, f) == replaced(p, k + 1, f),
{
    let a = replaced(p, k, f);
    let b = replaced(p, k + 1, f);
    assert forall|i: int| 0 <= i < a.len() implies a[i] == b[i] by {
        vstd::arithmetic::div_mod::lemma_fundamental_div_mod(i, 4);
        if i / 4 == k {
            vstd::arithmetic::div_mod::lemma_fundamental_div_mod_converse(i, 4, k, i - k * 4);
        }
    }
    assert(a =~= b);
}

/// The absolute value.
pub open spec fn abs_int(a: int) -> int {
    if a < 0 {
        -a
    } else {
        a
    }
}

/// A pixel is close enough to the wand's sample: transparency must agree,
/// two transparent pixels always match, and otherwise the squared colour
/// distance (alpha counted at a third) is within `3 * tol²`.
pub open spec fn near(px: [u8; 4], t: [u8; 4], tol: int) -> bool {
    if (px[3] == 0) != (t[3] == 0) {
        false
    } else if px[3] == 0 {
        true
    } else {
        let d0 = px[0] - t[0];
        let d1 = px[1] - t[1];
        let d2 = px[2] - t[2];
        let da = abs_int(px[3] - t[3]) / 3;
        d0 * d0 + d1 * d1 + d2 * d2 + da * da <= tol * tol * 3
    }
}

fn near_exec(px: [u8; 4], t: [u8; 4], tol: i32) -> (r: bool)
    requires
        0 <= tol <= 255,
    ensures
        r == near(px, t, tol as int),
{
    if (px[3] == 0) != (t[3] == 0) {
        return false;
    }
    if px[3] == 0 {
        return true;
    }
    let d0 = px[0] as i32 - t[0] as i32;
    let d1 = px[1] as i32 - t[1] as i32;
    let d2 = px[2] as i32 - t[2] as i32;
    let ad = if px[3] >= t[3] {
        (px[3] - t[3]) as i32
    } else {
        (t[3] - px[3]) as i32
    };
    let da = ad / 3;
    assert(0 <= d0 * d0 <= 65025 && 0 <= d1 * d1 <= 65025 && 0 <= d2 * d2 <= 65025 && 0 <= da * da <= 65025) by (nonlinear_arith)
        requires
            -255 <= d0 <= 255,
            -255 <= d1 <= 255,
            -255 <= d2 <= 255,
            0 <= da <= 85,
    ;
    assert(tol * tol * 3 <= 195075) by (nonlinear_arith)
        requires
            0 <= tol <= 255,
    ;
    d0 * d0 + d1 * d1 + d2 * d2 + da * da <= tol * tol * 3
}

/// The pixels of a `w`-wide layer near the sample `t`, one flag per pixel
/// of the canvas.
pub open spec fn near_flags(p: Seq<u8>, n: int, t: [u8; 4], tol: int) -> Seq<bool> {
    Seq::new(n as nat, |k: int| near(px4(p, 1, k, 0), t, tol))
}

fn flags_near(p: &Vec<u8>, n: usize, t: [u8; 4], tol: i32) -> (acc: Vec<bool>)
    requires
        p@.len() >= n * 4,
        0 <= tol <= 255,
    ensures
        acc@ == near_flags(p@, n as int, t, tol as int),
{
    let len = p.len();
    let mut acc: Vec<bool> = Vec::new();
    let mut k: usize = 0;
    while k < n
        invariant
            len == p@.len(),
            p@.len() >= n * 4,
            0 <= tol <= 255,
            k <= n,
            acc@.len() == k,
            forall|j: int| 0 <= j < k ==> acc@[j] == near(px4(p@, 1, j, 0), t, tol as int),
        decreases n - k,
    {
        let c = [p[k * 4], p[k * 4 + 1], p[k * 4 + 2], p[k * 4 + 3]];
        assert(c == px4(p@, 1, k as int, 0));
        acc.push(near_exec(c, t, tol));
        k = k + 1;
    }
    assert(acc@ =~= near_flags(p@, n as int, t, tol as int));
    acc
}

/// Whether the wand takes pixel `(x, y)`: with `contiguous`, the pixels
/// reached from the start through side-by-side near pixels; otherwise every
/// near pixel.
pub open spec fn wand_takes(p: Seq<u8>, w: int, h: int, sx: int, sy: int, tol: int, contiguous: bool, x: int, y: int) -> bool {
    let t = px4(p, w, sx, sy);
    if contiguous {
        in_region(near_flags(p, w * h, t, tol), w, h, sx, sy, x, y)
    } else {
        near(px4(p, w, x, y), t, tol)
    }
}

/// The wand's tolerance held within `0..=255`.
pub open spec fn wand_tolerance(t: i32) -> int {
    if t < 0 {
        0
    } else if t > 255 {
        255
    } else {
        t as int
    }
}

/// The magic wand: marks in `mask` (with 255) the pixels of the layer close
/// in colour to the one at `(sx, sy)` (see `near`, with the tolerance held
/// in `0..=255`); only the touching ones with `contiguous`. A start outside
/// the canvas changes nothing.
pub fn wand(
    layer: &Layer,
    mask: &mut [u8],
    w: usize,
    h: usize,
    sx: i32,
    sy: i32,
    tolerance: i32,
    contiguous: bool,
)
    requires
        layer.pixels@.len() >= w * h * 4,
        old(mask)@.len() >= w * h,
    ensures
        final(mask)@.len() == old(mask)@.len(),
        forall|k: int| w * h <= k < old(mask)@.len() ==> final(mask)@[k] == old(mask)@[k],
        forall|x: int, y: int|
            0 <= x < w && 0 <= y < h ==> final(mask)@[y * w + x] == if 0 <= sx < w && 0 <= sy < h && #[trigger] wand_takes(
                layer.pixels@,
                w as int,
                h as int,
                sx as int,
                sy as int,
                wand_tolerance(tolerance),
                contiguous,
                x,
                y,
            ) {
                255
            } else {
                old(mask)@[y * w + x]
            },
{
    let len = layer.pixels.len();
    assert(w * h <= len) by (nonlinear_arith)
        requires
            len >= w * h * 4,
    ;
    if sx < 0 || sy < 0 || sx as usize >= w || sy as usize >= h {
        return;
    }
    let n = w * h;
    let sx = sx as usize;
    let sy = sy as usize;
    proof {
        crate::document::lemma_pixel_inside(w as int, h as int, sx as int, sy as int);
    }
    let target = layer.get(w, sx, sy);
    let tol: i32 = if tolerance < 0 {
        0
    } else if tolerance > 255 {
        255
    } else {
        tolerance
    };
    let acc = flags_near(&layer.pixels, n, target, tol);
    let ghost p = layer.pixels@;
    proof {
        crate::region::lemma_cell_index(w as int, h as int, sx as int, sy as int);
        assert(px4(p, 1, sy * w + sx, 0) == px4(p, w as int, sx as int, sy as int));
        assert(acc@[sy * w + sx]);
    }
    let sel: Vec<bool> = if contiguous {
        grow_region(&acc, w, h, sx, sy)
    } else {
        acc
    };
    let mut k: usize = 0;
    while k < n
        invariant
            n == w * h,
            n <= mask@.len(),
            mask@.len() == old(mask)@.len(),
            sel@.len() == n,
            k <= n,
            forall|j: int| 0 <= j < k ==> mask@[j] == if sel@[j] {
                255
            } else {
                old(mask)@[j]
            },
            forall|j: int| k <= j < mask@.len() ==> mask@[j] == old(mask)@[j],
        decreases n - k,
    {
        if sel[k] {
            mask[k] = 255;
        }
        k = k + 1;
    }
    proof {
        assert(tol as int == wand_tolerance(tolerance));
        assert forall|x: int, y: int| 0 <= x < w && 0 <= y < h implies mask@[y * w + x] == if #[trigger] wand_takes(
            p,
            w as int,
            h as int,
            sx as int,
            sy as int,
            wand_tolerance(tolerance),
            contiguous,
            x,
            y,
        ) {
            255
        } else {
            old(mask)@[y * w + x]
        } by {
            crate::region::lemma_cell_index(w as int, h as int, x, y);
            assert(px4(p, 1, y * w + x, 0) == px4(p, w as int, x, y));
        }
    }
}

/// The sum of the channel differences of two colours.
pub open spec fn color_distance(a: [u8; 4], b: [u8; 4]) -> int {
    abs_int(a[0] - b[0]) + abs_int(a[1] - b[1]) + abs_int(a[2] - b[2]) + abs_int(a[3] - b[3])
}

fn distance_exec(a: [u8; 4], b: [u8; 4]) -> (d: u32)
    ensures
        d == color_distance(a, b),
{
    let d0 = if a[0] >= b[0] { (a[0] - b[0]) as u32 } else { (b[0] - a[0]) as u32 };
    let d1 = if a[1] >= b[1] { (a[1] - b[1]) as u32 } else { (b[1] - a[1]) as u32 };
    let d2 = if a[2] >= b[2] { (a[2] - b[2]) as u32 } else { (b[2] - a[2]) as u32 };
    let d3 = if a[3] >= b[3] { (a[3] - b[3]) as u32 } else { (b[3] - a[3]) as u32 };
    d0 + d1 + d2 + d3
}

/// The pixels within `4 * tol` of the colour `t`, one flag per pixel.
pub open spec fn close_flags(p: Seq<u8>, n: int, t: [u8; 4], tol: int) -> Seq<bool> {
    Seq::new(n as nat, |k: int| color_distance(px4(p, 1, k, 0), t) <= tol * 4)
}

fn flags_close(p: &Vec<u8>, n: usize, t: [u8; 4], tol: u32) -> (acc: Vec<bool>)
    requires
        p@.len() >= n * 4,
        tol <= 255,
    ensures
        acc@ == close_flags(p@, n as int, t, tol as int),
{
    let len = p.len();
    let mut acc: Vec<bool> = Vec::new();
    let mut k: usize = 0;
    while k < n
        invariant
            len == p@.len(),
            p@.len() >= n * 4,
            tol <= 255,
            k <= n,
            acc@.len() == k,
            forall|j: int| 0 <= j < k ==> acc@[j] == (color_distance(px4(p@, 1, j, 0), t) <= tol * 4),
        decreases n - k,
    {
        let c = [p[k * 4], p[k * 4 + 1], p[k * 4 + 2], p[k * 4 + 3]];
        assert(c == px4(p@, 1, k as int, 0));
        acc.push(distance_exec(c, t) <= tol * 4);
        k = k + 1;
    }
    assert(acc@ =~= close_flags(p@, n as int, t, tol as int));
    acc
}

/// Whether the fill takes pixel `(x, y)`: the pixels within `4 * tol` of
/// the colour at the start, with `contiguous` only those reached from it
/// through side-by-side such pixels.
pub open spec fn fill_takes(p: Seq<u8>, w: int, h: int, sx: int, sy: int, tol: int, contiguous: bool, x: int, y: int) -> bool {
    let t = px4(p, w, sx, sy);
    if contiguous {
        in_region(close_flags(p, w * h, t, tol), w, h, sx, sy, x, y)
    } else {
        color_distance(px4(p, w, x, y), t) <= tol * 4
    }
}

/// Whether a fill at `(sx, sy)` paints at all: the start is on the canvas,
/// the new colour's alpha is not zero, and the start does not already have
/// the colour when the fill is opaque.
pub open spec fn fill_paints(p: Seq<u8>, w: int, h: int, sx: int, sy: int, color: [u8; 4], alpha: u8, opaque: bool) -> bool {
    &&& 0 <= sx < w
    &&& 0 <= sy < h
    &&& !(px4(p, w, sx, sy) == color && opaque)
    &&& alpha != 0
}

/// The pixels of a `w`×`h` layer `p` after a fill at `(sx, sy)` (see
/// `flood_fill`).
pub open spec fn spec_flood_fill(
    p: Seq<u8>,
    w: int,
    h: int,
    sx: int,
    sy: int,
    color: [u8; 4],
    alpha: u8,
    opaque: bool,
    tolerance: int,
    contiguous: bool,
) -> Seq<u8> {
    if fill_paints(p, w, h, sx, sy, color, alpha, opaque) {
        replaced(
            p,
            w * h,
            |k: int|
                if fill_takes(
                    p,
                    w,
                    h,
                    sx,
                    sy,
                    tolerance,
                    contiguous,
                    k % w,
                    k / w,
                ) {
                    [color[0], color[1], color[2], alpha]
                } else {
                    px4(p, 1, k, 0)
                },
        )
    } else {
        p
    }
}

/// Fills with `color` (its alpha replaced by `alpha`, the colour's alpha
/// scaled by the tool opacity): the pixels close to the colour at
/// `(sx, sy)` (see `fill_takes`) are set to it. `opaque` says the scaled
/// alpha reaches 254, so that filling a pixel of the same colour would
/// change nothing.
pub fn flood_fill(
    layer: &mut Layer,
    w: usize,
    h: usize,
    sx: i32,
    sy: i32,
    color: [u8; 4],
    alpha: u8,
    opaque: bool,
    tolerance: u8,
    contiguous: bool,
)
    requires
        old(layer).pixels@.len() >= w * h * 4,
    ensures
        final(layer).pixels@ == spec_flood_fill(
            old(layer).pixels@,
            w as int,
            h as int,
            sx as int,
            sy as int,
            color,
            alpha,
            opaque,
            tolerance as int,
            contiguous,
        ),
        final(layer).meta == old(layer).meta,
        final(layer).mask == old(layer).mask,
        final(layer).mask_on == old(layer).mask_on,
{
    let len = layer.pixels.len();
    assert(w * h <= len) by (nonlinear_arith)
        requires
            len >= w * h * 4,
    ;
    if sx < 0 || sy < 0 || sx as usize >= w || sy as usize >= h {
        return;
    }
    let n = w * h;
    let sx = sx as usize;
    let sy = sy as usize;
    proof {
        crate::document::lemma_pixel_inside(w as int, h as int, sx as int, sy as int);
    }
    let target = layer.get(w, sx, sy);
    let same = target[0] == color[0] && target[1] == color[1] && target[2] == color[2] && target[3] == color[3];
    if same && opaque {
        assert(target =~= color);
        return;
    }
    assert(!(target == color && opaque));
    if alpha == 0 {
        return;
    }
    let nc = [color[0], color[1], color[2], alpha];
    let tol = tolerance as u32;
    let acc = flags_close(&layer.pixels, n, target, tol);
    let ghost p = layer.pixels@;
    proof {
        crate::region::lemma_cell_index(w as int, h as int, sx as int, sy as int);
        assert(px4(p, 1, sy * w + sx, 0) == px4(p, w as int, sx as int, sy as int));
        assert(acc@[sy * w + sx]);
    }
    let sel: Vec<bool> = if contiguous {
        grow_region(&acc, w, h, sx, sy)
    } else {
        acc
    };
    let ghost f = |k: int|
        if sel@[k] {
            [color[0], color[1], color[2], alpha]
        } else {
            px4(p, 1, k, 0)
        };
    let mut k: usize = 0;
    proof {
        lemma_replaced_zero(p, f);
    }
    while k < n
        invariant
            n == w * h,
            n * 4 <= len,
            len == p.len(),
            sel@.len() == n,
            k <= n,
            nc == [color[0], color[1], color[2], alpha],
            forall|j: int|
                #[trigger] f(j) == if sel@[j] {
                    [color[0], color[1], color[2], alpha]
                } else {
                    px4(p, 1, j, 0)
                },
            layer.pixels@ == replaced(p, k as int, f),
            layer.meta == old(layer).meta,
            layer.mask == old(layer).mask,
            layer.mask_on == old(layer).mask_on,
        decreases n - k,
    {
        proof {
            lemma_replaced_untouched(p, k as int, f);
        }
        if sel[k] {
            let ghost before = layer.pixels@;
            layer.pixels.set(k * 4, nc[0]);
            layer.pixels.set(k * 4 + 1, nc[1]);
            layer.pixels.set(k * 4 + 2, nc[2]);
            layer.pixels.set(k * 4 + 3, nc[3]);
            proof {
                lemma_replaced_step(p, k as int, f, nc);
                assert(layer.pixels@ =~= put4(before, k * 4, nc));
            }
        } else {
            proof {
                lemma_replaced_same(p, k as int, f);
            }
        }
        k = k + 1;
    }
    proof {
        let g = |k: int|
            if fill_takes(p, w as int, h as int, sx as int, sy as int, tolerance as int, contiguous, k % (w as int), k / (w as int)) {
                [color[0], color[1], color[2], alpha]
            } else {
                px4(p, 1, k, 0)
            };
        assert forall|j: int| 0 <= j < n implies #[trigger] f(j) == g(j) by {
            let x = j % (w as int);
            let y = j / (w as int);
            crate::region::lemma_split_index(w as int, h as int, j);
            crate::region::lemma_cell_index(w as int, h as int, x, y);
            assert(px4(p, 1, y * w + x, 0) == px4(p, w as int, x, y));
        }
        assert(replaced(p, n as int, f) =~= replaced(p, n as int, g));
    }
}


/// Pixel `k` of a `w`-wide canvas lies in the rectangle `(x0, y0, x1, y1)`
/// (one past its last column and row).
pub open spec fn in_clip(w: int, k: int, c: (usize, usize, usize, usize)) -> bool {
    c.0 <= k % w < c.2 && c.1 <= k / w < c.3
}

/// Makes the part of the layer inside `clip` fully transparent (cutting,
/// deleting); no clip changes nothing.
pub fn clear_rect(layer: &mut Layer, w: usize, h: usize, clip: Option<(usize, usize, usize, usize)>)
    requires
        old(layer).pixels@.len() >= w * h * 4,
    ensures
        final(layer).pixels@ == match clip {
            None => old(layer).pixels@,
            Some(c) => replaced(
                old(layer).pixels@,
                w * h,
                |k: int|
                    if in_clip(w as int, k, c) {
                        [0u8, 0u8, 0u8, 0u8]
                    } else {
                        px4(old(layer).pixels@, 1, k, 0)
                    },
            ),
        },
        final(layer).meta == old(layer).meta,
        final(layer).mask == old(layer).mask,
        final(layer).mask_on == old(layer).mask_on,
{
    let c = match clip {
        None => {
            return;
        },
        Some(c) => c,
    };
    let (x0, y0, x1, y1) = c;
    let ghost p = old(layer).pixels@;
    let ghost f = |k: int|
        if in_clip(w as int, k, c) {
            [0u8, 0u8, 0u8, 0u8]
        } else {
            px4(p, 1, k, 0)
        };
    let len = layer.pixels.len();
    assert(w * h <= len) by (nonlinear_arith)
        requires
            len >= w * h * 4,
    ;
    let n = w * h;
    let mut k: usize = 0;
    let mut x: usize = 0;
    let mut y: usize = 0;
    proof {
        lemma_replaced_zero(p, f);
        assert(0 * w == 0);
        assert(n > 0 ==> w > 0) by (nonlinear_arith)
            requires
                n == w * h,
        ;
    }
    while k < n
        invariant
            n == w * h,
            n * 4 <= len,
            len == p.len(),
            k <= n,
            k < n ==> x < w && k == y * w + x,
            forall|j: int|
                #[trigger] f(j) == if in_clip(w as int, j, c) {
                    [0u8, 0u8, 0u8, 0u8]
                } else {
                    px4(p, 1, j, 0)
                },
            c == (x0, y0, x1, y1),
            layer.pixels@ == replaced(p, k as int, f),
            layer.meta == old(layer).meta,
            layer.mask == old(layer).mask,
            layer.mask_on == old(layer).mask_on,
        decreases n - k,
    {
        proof {
            lemma_replaced_untouched(p, k as int, f);
            vstd::arithmetic::div_mod::lemma_fundamental_div_mod_converse(k as int, w as int, y as int, x as int);
        }
        if x0 <= x && x < x1 && y0 <= y && y < y1 {
            let z: [u8; 4] = [0, 0, 0, 0];
            let ghost before = layer.pixels@;
            layer.pixels.set(k * 4, 0);
            layer.pixels.set(k * 4 + 1, 0);
            layer.pixels.set(k * 4 + 2, 0);
            layer.pixels.set(k * 4 + 3, 0);
            proof {
                lemma_replaced_step(p, k as int, f, z);
                assert(layer.pixels@ =~= put4(before, k * 4, z));
            }
        } else {
            proof {
                lemma_replaced_same(p, k as int, f);
            }
        }
        k = k + 1;
        if x + 1 < w {
            x = x + 1;
        } else {
            proof {
                assert((y + 1) * w == y * w + w) by (nonlinear_arith);
            }
            x = 0;
            y = y + 1;
        }
    }
}

/// The source-over of fragment pixel `(x - ox, y - oy)` on pixel `k` of a
/// `w`-wide canvas, where the fragment covers it.
pub open spec fn blit_at(p: Seq<u8>, w: int, d: Seq<u8>, dw: int, dh: int, ox: int, oy: int, k: int) -> [u8; 4] {
    let x = k % w;
    let y = k / w;
    if ox <= x < ox + dw && oy <= y < oy + dh {
        spec_over(px4(p, 1, k, 0), px4(d, dw, x - ox, y - oy))
    } else {
        px4(p, 1, k, 0)
    }
}

/// Paints the fragment over the layer with its top left corner at
/// `(ox, oy)`, source-over; what falls outside the canvas is dropped.
pub fn blit_rect(layer: &mut Layer, w: usize, h: usize, data: &RectData, ox: i32, oy: i32)
    requires
        old(layer).pixels@.len() >= w * h * 4,
        data.pixels@.len() >= data.w * data.h * 4,
    ensures
        final(layer).pixels@ == if data.w == 0 || data.h == 0 {
            old(layer).pixels@
        } else {
            replaced(
                old(layer).pixels@,
                w * h,
                |k: int| blit_at(old(layer).pixels@, w as int, data.pixels@, data.w as int, data.h as int, ox as int, oy as int, k),
            )
        },
        final(layer).meta == old(layer).meta,
        final(layer).mask == old(layer).mask,
        final(layer).mask_on == old(layer).mask_on,
{
    if data.w == 0 || data.h == 0 {
        return;
    }
    let ghost p = old(layer).pixels@;
    let ghost d = data.pixels@;
    let dw = data.w;
    let dh = data.h;
    let ghost f = |k: int| blit_at(p, w as int, d, dw as int, dh as int, ox as int, oy as int, k);
    let len = layer.pixels.len();
    let dlen = data.pixels.len();
    assert(w * h <= len) by (nonlinear_arith)
        requires
            len >= w * h * 4,
    ;
    let n = w * h;
    let mut k: usize = 0;
    let mut x: usize = 0;
    let mut y: usize = 0;
    proof {
        lemma_replaced_zero(p, f);
        assert(0 * w == 0);
        assert(n > 0 ==> w > 0) by (nonlinear_arith)
            requires
                n == w * h,
        ;
    }
    while k < n
        invariant
            n == w * h,
            n * 4 <= len,
            len == p.len(),
            dlen == d.len(),
            d == data.pixels@,
            dw == data.w,
            dh == data.h,
            dlen >= dw * dh * 4,
            k <= n,
            k < n ==> x < w && k == y * w + x,
            forall|j: int| #[trigger] f(j) == blit_at(p, w as int, d, dw as int, dh as int, ox as int, oy as int, j),
            layer.pixels@ == replaced(p, k as int, f),
            layer.meta == old(layer).meta,
            layer.mask == old(layer).mask,
            layer.mask_on == old(layer).mask_on,
        decreases n - k,
    {
        proof {
            lemma_replaced_untouched(p, k as int, f);
            vstd::arithmetic::div_mod::lemma_fundamental_div_mod_converse(k as int, w as int, y as int, x as int);
        }
        let tx = x as i128 - ox as i128;
        let ty = y as i128 - oy as i128;
        if 0 <= tx && tx < dw as i128 && 0 <= ty && ty < dh as i128 {
            let sx = tx as usize;
            let sy = ty as usize;
            proof {
                crate::document::lemma_pixel_inside(dw as int, dh as int, sx as int, sy as int);
            }
            let s = (sy * dw + sx) * 4;
            let src = [data.pixels[s], data.pixels[s + 1], data.pixels[s + 2], data.pixels[s + 3]];
            let ghost before = layer.pixels@;
            layer.blend(1, k, 0, src);
            proof {
                assert(px4(before, 1, k as int, 0) == px4(p, 1, k as int, 0));
                assert(src == px4(d, dw as int, sx as int, sy as int));
                let o = spec_over(px4(before, 1, k as int, 0), src);
                lemma_replaced_step(p, k as int, f, o);
                assert(layer.pixels@ =~= put4(before, k * 4, o));
            }
        } else {
            proof {
                lemma_replaced_same(p, k as int, f);
            }
        }
        k = k + 1;
        if x + 1 < w {
            x = x + 1;
        } else {
            proof {
                assert((y + 1) * w == y * w + w) by (nonlinear_arith);
            }
            x = 0;
            y = y + 1;
        }
    }
}

} // verus!



