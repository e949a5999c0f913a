//! The document: layers of RGBA8 pixels with their settings, the layer
//! operations, whole-document transforms, and the undo history.
//!
//! Pixels are stored as RGBA8, four bytes per pixel, row by row. A layer's
//! opacity is applied when the layers are composited, not while painting,
//! so changing it is instant and loses nothing.
use vstd::prelude::*;

pub use crate::document::Document;
pub use crate::history::{Action, History, Step};

verus! {

/// How a layer is mixed over the layers below it. The first five are the
/// editor's own modes (`ALL`); the other five come from PSD files, which
/// name them, and are kept so that a PSD layer keeps its mode.
#[derive(Clone, Copy, PartialEq, Eq, Debug, Structural)]
pub enum BlendMode {
    Normal,
    Multiply,
    Screen,
    Overlay,
    Add,
    Darken,
    Lighten,
    Difference,
    ColorDodge,
    ColorBurn,
}

/// The editor's own blend modes, in the order the project format numbers
/// them.
pub const BLEND_MODES: [BlendMode; 5] = [
    BlendMode::Normal,
    BlendMode::Multiply,
    BlendMode::Screen,
    BlendMode::Overlay,
    BlendMode::Add,
];

impl BlendMode {
    /// The editor's own blend modes, in the order the project format
    /// numbers them.
    pub const ALL: [BlendMode; 5] = BLEND_MODES;

    /// Name shown in the layer panel.
    pub fn name(self) -> (r: &'static str)
        ensures
            r@ == spec_blend_name(self),
    {
        match self {
            BlendMode::Normal => "Обычный",
            BlendMode::Multiply => "Умножение",
            BlendMode::Screen => "Экран",
            BlendMode::Overlay => "Наложение",
            BlendMode::Add => "Добавить",
            BlendMode::Darken => "Затемнение",
            BlendMode::Lighten => "Замена светлым",
            BlendMode::Difference => "Разница",
            BlendMode::ColorDodge => "Осветление основы",
            BlendMode::ColorBurn => "Затемнение основы",
        }
    }
}

pub open spec fn spec_blend_name(b: BlendMode) -> Seq<char> {
    match b {
        BlendMode::Normal => "Обычный"@,
        BlendMode::Multiply => "Умножение"@,
        BlendMode::Screen => "Экран"@,
        BlendMode::Overlay => "Наложение"@,
        BlendMode::Add => "Добавить"@,
        BlendMode::Darken => "Затемнение"@,
        BlendMode::Lighten => "Замена светлым"@,
        BlendMode::Difference => "Разница"@,
        BlendMode::ColorDodge => "Осветление основы"@,
        BlendMode::ColorBurn => "Затемнение основы"@,
    }
}


/// The opacity `0.0..=1.0` is kept as the bits of an IEEE-754 single; this
/// library only stores and compares it. The bits of `1.0`.
pub const OPACITY_ONE: u32 = 0x3F80_0000;

/// The single whose bits are `b` is at most zero (NaN is not).
pub open spec fn opacity_at_most_zero(b: u32) -> bool {
    b == 0 || (0x8000_0000 <= b && b <= 0xFF80_0000)
}

/// Settings of a layer, without its pixels.
#[derive(Clone)]
pub struct LayerMeta {
    pub name: String,
    pub visible: bool,
    pub locked: bool,
    /// IEEE-754 bits of the opacity.
    pub opacity: u32,
    pub blend: BlendMode,
    /// The folder the layer is in; `None` outside any folder.
    pub group: Option<String>,
    /// The folder is open in the layer panel (kept on its first layer).
    pub group_open: bool,
}

/// What layer settings hold.
pub struct MetaView {
    pub name: Seq<char>,
    pub visible: bool,
    pub locked: bool,
    pub opacity: u32,
    pub blend: BlendMode,
    pub group: Option<Seq<char>>,
    pub group_open: bool,
}

pub open spec fn opt_string_view(s: Option<String>) -> Option<Seq<char>> {
    match s {
        Some(s) => Some(s@),
        None => None,
    }
}

impl View for LayerMeta {
    type V = MetaView;

    open spec fn view(&self) -> MetaView {
        MetaView {
            name: self.name@,
            visible: self.visible,
            locked: self.locked,
            opacity: self.opacity,
            blend: self.blend,
            group: opt_string_view(self.group),
            group_open: self.group_open,
        }
    }
}

fn copy_string(s: &String) -> (r: String)
    ensures
        r@ == s@,
{
    s.clone()
}

impl LayerMeta {
    /// A copy with the same settings.
    pub fn copy(&self) -> (r: Self)
        ensures
            r@ == self@,
    {
        LayerMeta {
            name: copy_string(&self.name),
            visible: self.visible,
            locked: self.locked,
            opacity: self.opacity,
            blend: self.blend,
            group: match &self.group {
                Some(g) => Some(copy_string(g)),
                None => None,
            },
            group_open: self.group_open,
        }
    }
}

/// A layer: settings, RGBA8 pixels and an optional mask.
#[derive(Clone)]
pub struct Layer {
    pub meta: LayerMeta,
    pub pixels: Vec<u8>,
    /// One coverage byte per pixel; `None` when the layer has no mask.
    pub mask: Option<Vec<u8>>,
    /// The mask takes part in compositing (it can be switched off).
    pub mask_on: bool,
}

/// What a layer holds.
pub struct LayerView {
    pub meta: MetaView,
    pub pixels: Seq<u8>,
    pub mask: Option<Seq<u8>>,
    pub mask_on: bool,
}

pub open spec fn opt_bytes_view(m: Option<Vec<u8>>) -> Option<Seq<u8>> {
    match m {
        Some(v) => Some(v@),
        None => None,
    }
}

impl View for Layer {
    type V = LayerView;

    open spec fn view(&self) -> LayerView {
        LayerView { meta: self.meta@, pixels: self.pixels@, mask: opt_bytes_view(self.mask), mask_on: self.mask_on }
    }
}

/// The four bytes of pixel `(x, y)` of an RGBA8 buffer of width `w`.
pub open spec fn px4(p: Seq<u8>, w: int, x: int, y: int) -> [u8; 4] {
    let i = (y * w + x) * 4;
    [p[i], p[i + 1], p[i + 2], p[i + 3]]
}

/// Source-over of colour `c` on pixel `d`, in 8 bits: a transparent colour
/// changes nothing, an opaque one replaces the pixel, a transparent pixel
/// takes the colour; otherwise the two are mixed by their alphas (a channel
/// value past 255 wraps, as the arithmetic does).
pub open spec fn spec_over(d: [u8; 4], c: [u8; 4]) -> [u8; 4] {
    if c[3] == 0 {
        d
    } else if c[3] == 255 {
        [c[0], c[1], c[2], 255u8]
    } else if d[3] == 0 {
        c
    } else {
        let a = c[3] as int;
        let da = d[3] as int;
        let inv = 255 - a;
        let out_a = a + da * inv / 255;
        [
            ((c[0] * a * 255 + d[0] * da * inv) / (out_a * 255)) as u8,
            ((c[1] * a * 255 + d[1] * da * inv) / (out_a * 255)) as u8,
            ((c[2] * a * 255 + d[2] * da * inv) / (out_a * 255)) as u8,
            out_a as u8,
        ]
    }
}

/// `p` with the four bytes at `i` replaced by `c`.
pub open spec fn put4(p: Seq<u8>, i: int, c: [u8; 4]) -> Seq<u8> {
    p.update(i, c[0]).update(i + 1, c[1]).update(i + 2, c[2]).update(i + 3, c[3])
}

/// A buffer of `n` pixels all of colour `c`.
pub open spec fn solid(n: nat, c: [u8; 4]) -> Seq<u8> {
    Seq::new(n * 4, |i: int| c[i % 4])
}

pub(crate) fn zeros(n: usize) -> (v: Vec<u8>)
    ensures
        v@ == Seq::new(n as nat, |i: int| 0u8),
{
    let mut v: Vec<u8> = Vec::new();
    let mut i: usize = 0;
    while i < n
        invariant
            i <= n,
            v@ == Seq::new(i as nat, |k: int| 0u8),
        decreases n - i,
    {
        v.push(0);
        i = i + 1;
        assert(v@ =~= Seq::new(i as nat, |k: int| 0u8));
    }
    v
}

/// A new layer of `w`×`h` transparent pixels named `name`: visible,
/// unlocked, opaque, normal blending, in no folder, without a mask.
pub open spec fn blank_layer(w: nat, h: nat, name: Seq<char>) -> LayerView {
    LayerView {
        meta: MetaView {
            name: name,
            visible: true,
            locked: false,
            opacity: OPACITY_ONE,
            blend: BlendMode::Normal,
            group: None,
            group_open: true,
        },
        pixels: Seq::new(w * h * 4, |i: int| 0u8),
        mask: None,
        mask_on: true,
    }
}

impl Layer {
    /// A transparent layer of `w`×`h` pixels, visible, unlocked, opaque,
    /// normal blending, in no folder, without a mask.
    pub fn new(w: usize, h: usize, name: &str) -> (l: Self)
        requires
            w * h * 4 <= usize::MAX,
        ensures
            l@ == blank_layer(w as nat, h as nat, name@),
    {
        Layer {
            meta: LayerMeta {
                name: name.to_owned(),
                visible: true,
                locked: false,
                opacity: OPACITY_ONE,
                blend: BlendMode::Normal,
                group: None,
                group_open: true,
            },
            pixels: zeros(w * h * 4),
            mask: None,
            mask_on: true,
        }
    }

    /// A copy with the same settings, pixels and mask.
    pub fn copy(&self) -> (r: Self)
        ensures
            r@ == self@,
    {
        let pixels = self.pixels.clone();
        assert(pixels@ =~= self.pixels@);
        let mask = match &self.mask {
            Some(m) => {
                let c = m.clone();
                assert(c@ =~= m@);
                Some(c)
            },
            None => None,
        };
        Layer { meta: self.meta.copy(), pixels, mask, mask_on: self.mask_on }
    }

    /// The index of the first byte of pixel `(x, y)` in a layer of width `w`.
    pub fn idx(&self, w: usize, x: usize, y: usize) -> (i: usize)
        requires
            (y * w + x) * 4 <= usize::MAX,
        ensures
            i == (y * w + x) * 4,
    {
        (y * w + x) * 4
    }

    /// The RGBA value of pixel `(x, y)`.
    pub fn get(&self, w: usize, x: usize, y: usize) -> (c: [u8; 4])
        requires
            (y * w + x) * 4 + 4 <= self.pixels@.len(),
        ensures
            c == px4(self.pixels@, w as int, x as int, y as int),
    {
        let len = self.pixels.len();
        assert((y * w + x) * 4 < len);
        let i = self.idx(w, x, y);
        [self.pixels[i], self.pixels[i + 1], self.pixels[i + 2], self.pixels[i + 3]]
    }

    fn put(&mut self, i: usize, c: [u8; 4])
        requires
            i + 4 <= old(self).pixels@.len(),
        ensures
            final(self).pixels@ == put4(old(self).pixels@, i as int, c),
            final(self).meta == old(self).meta,
            final(self).mask == old(self).mask,
            final(self).mask_on == old(self).mask_on,
    {
        let len = self.pixels.len();
        assert(i + 3 < len);
        self.pixels.set(i, c[0]);
        self.pixels.set(i + 1, c[1]);
        self.pixels.set(i + 2, c[2]);
        self.pixels.set(i + 3, c[3]);
    }

    /// Paints colour `c` over pixel `(x, y)` (source-over, see `spec_over`).
    pub fn blend(&mut self, w: usize, x: usize, y: usize, c: [u8; 4])
        requires
            (y * w + x) * 4 + 4 <= old(self).pixels@.len(),
        ensures
            final(self).pixels@ == put4(
                old(self).pixels@,
                (y * w + x) * 4,
                spec_over(px4(old(self).pixels@, w as int, x as int, y as int), c),
            ),
            final(self).meta == old(self).meta,
            final(self).mask == old(self).mask,
            final(self).mask_on == old(self).mask_on,
    {
        let len = self.pixels.len();
        assert((y * w + x) * 4 < len);
        let i = self.idx(w, x, y);
        let d = self.get(w, x, y);
        if c[3] == 0 {
            assert(put4(self.pixels@, i as int, d) =~= self.pixels@);
            return;
        }
        let a = c[3] as u32;
        if a == 255 {
            self.put(i, [c[0], c[1], c[2], 255]);
            return;
        }
        let da = d[3] as u32;
        if da == 0 {
            self.put(i, c);
            return;
        }
        let inv = 255 - a;
        assert(da * inv <= 255 * 255) by (nonlinear_arith)
            requires
                da <= 255,
                inv <= 255,
        ;
        let out_a = a + da * inv / 255;
        assert(out_a * 255 <= 510 * 255);
        assert(out_a >= 1);
        let r = Self::mix(c[0], d[0], a, da, inv, out_a);
        let g = Self::mix(c[1], d[1], a, da, inv, out_a);
        let b = Self::mix(c[2], d[2], a, da, inv, out_a);
        self.put(i, [r, g, b, out_a as u8]);
    }

    fn mix(s: u8, d: u8, a: u32, da: u32, inv: u32, out_a: u32) -> (v: u8)
        requires
            a <= 255,
            da <= 255,
            inv <= 255,
            1 <= out_a <= 510,
        ensures
            v == ((s * a * 255 + d * da * inv) / (out_a * 255)) as u8,
    {
        assert(s * a <= 255 * 255) by (nonlinear_arith)
            requires
                s <= 255,
                a <= 255,
        ;
        assert(d * da <= 255 * 255) by (nonlinear_arith)
            requires
                d <= 255,
                da <= 255,
        ;
        assert(d * da * inv <= 255 * 255 * 255) by (nonlinear_arith)
            requires
                d * da <= 255 * 255,
                inv <= 255,
        ;
        let sa: u32 = s as u32 * a;
        let dd: u32 = d as u32 * da;
        let n = sa * 255 + dd * inv;
        (n / (out_a * 255)) as u8
    }

    /// Sets pixel `(x, y)` to `c`; a column past the width is ignored.
    pub fn set(&mut self, w: usize, x: usize, y: usize, c: [u8; 4])
        requires
            x < w ==> (y * w + x) * 4 + 4 <= old(self).pixels@.len(),
        ensures
            final(self).pixels@ == if x < w {
                put4(old(self).pixels@, (y * w + x) * 4, c)
            } else {
                old(self).pixels@
            },
            final(self).meta == old(self).meta,
            final(self).mask == old(self).mask,
            final(self).mask_on == old(self).mask_on,
    {
        if x >= w {
            return;
        }
        let len = self.pixels.len();
        assert((y * w + x) * 4 < len);
        let i = self.idx(w, x, y);
        self.put(i, c);
    }

    /// Fills every whole pixel with `c`; a trailing partial pixel is kept.
    pub fn fill(&mut self, c: [u8; 4])
        ensures
            final(self).pixels@.len() == old(self).pixels@.len(),
            forall|i: int|
                0 <= i < old(self).pixels@.len() ==> #[trigger] final(self).pixels@[i] == if i < old(self).pixels@.len() / 4 * 4 {
                    c[i % 4]
                } else {
                    old(self).pixels@[i]
                },
            final(self).meta == old(self).meta,
            final(self).mask == old(self).mask,
            final(self).mask_on == old(self).mask_on,
    {
        let len = self.pixels.len();
        let n = len / 4;
        let mut k: usize = 0;
        while k < n
            invariant
                len == old(self).pixels@.len(),
                n == old(self).pixels@.len() / 4,
                k <= n,
                self.pixels@.len() == old(self).pixels@.len(),
                self.meta == old(self).meta,
                self.mask == old(self).mask,
                self.mask_on == old(self).mask_on,
                forall|i: int|
                    0 <= i < old(self).pixels@.len() ==> #[trigger] self.pixels@[i] == if i < k * 4 {
                        c[i % 4]
                    } else {
                        old(self).pixels@[i]
                    },
            decreases n - k,
        {
            self.put(k * 4, c);
            k = k + 1;
        }
    }
}

} // verus!
