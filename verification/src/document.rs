//! The whole document: its size, the layers from the bottom up, the active
//! layer, and the layer and canvas operations that keep every layer the size
//! of the canvas.
use crate::doc::{blank_layer, opacity_at_most_zero, zeros, Layer, LayerView, MetaView};
use crate::psd_read::string_from_chars;
use vstd::prelude::*;

verus! {

/// How a new canvas takes its pixels from the old one.
#[derive(Clone, Copy, PartialEq, Eq, Debug, Structural)]
pub enum PixelMap {
    /// The same place; new pixels are transparent.
    Keep,
    /// Moved up and left by `(x0, y0)`; new pixels are transparent.
    Shift { x0: usize, y0: usize },
    /// Mirrored left to right.
    FlipH,
    /// Mirrored top to bottom.
    FlipV,
    /// Turned clockwise by a quarter.
    Quarter,
    /// Turned by a half.
    Half,
    /// Turned clockwise by three quarters.
    ThreeQuarters,
}

/// The old pixel that new pixel `(x, y)` shows, for an old canvas of
/// `ow`×`oh`; `None` when it shows a new, transparent pixel.
pub open spec fn map_source(m: PixelMap, ow: int, oh: int, x: int, y: int) -> Option<(int, int)> {
    match m {
        PixelMap::Keep => if x < ow && y < oh {
            Some((x, y))
        } else {
            None
        },
        PixelMap::Shift { x0, y0 } => if x + x0 < ow && y + y0 < oh {
            Some((x + x0, y + y0))
        } else {
            None
        },
        PixelMap::FlipH => Some((ow - 1 - x, y)),
        PixelMap::FlipV => Some((x, oh - 1 - y)),
        PixelMap::Quarter => Some((y, oh - 1 - x)),
        PixelMap::Half => Some((ow - 1 - x, oh - 1 - y)),
        PixelMap::ThreeQuarters => Some((ow - 1 - y, x)),
    }
}

/// The new size fits the map: the flips and the half turn keep the size, the
/// quarter turns swap it.
pub open spec fn map_fits(m: PixelMap, ow: int, oh: int, nw: int, nh: int) -> bool {
    match m {
        PixelMap::Keep => true,
        PixelMap::Shift { .. } => true,
        PixelMap::FlipH => nw == ow && nh == oh,
        PixelMap::FlipV => nw == ow && nh == oh,
        PixelMap::Half => nw == ow && nh == oh,
        PixelMap::Quarter => nw == oh && nh == ow,
        PixelMap::ThreeQuarters => nw == oh && nh == ow,
    }
}

/// An RGBA8 buffer of `nw`×`nh` pixels made from `p` (`ow`×`oh`) by `m`.
pub open spec fn remapped(p: Seq<u8>, ow: int, oh: int, nw: int, nh: int, m: PixelMap) -> Seq<u8> {
    Seq::new(
        (nw * nh * 4) as nat,
        |k: int|
            match map_source(m, ow, oh, (k / 4) % nw, (k / 4) / nw) {
                Some(s) => p[(s.1 * ow + s.0) * 4 + k % 4],
                None => 0u8,
            },
    )
}

/// Byte `(y * w + x) * 4 + c` sits at column `x`, row `y`, channel `c`.
pub proof fn lemma_byte_place(w: int, x: int, y: int, c: int)
    requires
        0 <= x < w,
        0 <= y,
        0 <= c < 4,
    ensures
        ((y * w + x) * 4 + c) / 4 == y * w + x,
        ((y * w + x) * 4 + c) % 4 == c,
        (((y * w + x) * 4 + c) / 4) % w == x,
        (((y * w + x) * 4 + c) / 4) / w == y,
{
    assert(0 <= y * w) by (nonlinear_arith)
        requires
            0 <= y,
            0 <= w,
    ;
    vstd::arithmetic::div_mod::lemma_fundamental_div_mod_converse((y * w + x) * 4 + c, 4, y * w + x, c);
    vstd::arithmetic::div_mod::lemma_fundamental_div_mod_converse(y * w + x, w, y, x);
}

/// Pixel `(x, y)` of a `w`×`h` canvas has all four bytes inside it.
pub proof fn lemma_pixel_inside(w: int, h: int, x: int, y: int)
    requires
        0 <= x < w,
        0 <= y < h,
    ensures
        0 <= (y * w + x) * 4,
        (y * w + x) * 4 + 4 <= w * h * 4,
{
    assert(y * w + x < w * h) by (nonlinear_arith)
        requires
            0 <= x < w,
            0 <= y < h,
    ;
    assert(0 <= y * w) by (nonlinear_arith)
        requires
            0 <= y,
            0 <= w,
    ;
}

/// Builds the `nw`×`nh` buffer that `m` makes of the `ow`×`oh` buffer `src`.
pub fn remap(src: &[u8], ow: usize, oh: usize, nw: usize, nh: usize, m: PixelMap) -> (out: Vec<u8>)
    requires
        src@.len() == ow * oh * 4,
        nw * nh * 4 <= usize::MAX,
        map_fits(m, ow as int, oh as int, nw as int, nh as int),
    ensures
        out@ == remapped(src@, ow as int, oh as int, nw as int, nh as int, m),
{
    let ghost want = remapped(src@, ow as int, oh as int, nw as int, nh as int, m);
    let slen = src.len();
    let mut out: Vec<u8> = Vec::new();
    let mut y: usize = 0;
    while y < nh
        invariant
            src@.len() == ow * oh * 4,
            slen == src@.len(),
            nw * nh * 4 <= usize::MAX,
            map_fits(m, ow as int, oh as int, nw as int, nh as int),
            want == remapped(src@, ow as int, oh as int, nw as int, nh as int, m),
            y <= nh,
            out@.len() == y * nw * 4,
            forall|k: int| 0 <= k < out@.len() ==> #[trigger] out@[k] == want[k],
        decreases nh - y,
    {
        let mut x: usize = 0;
        while x < nw
            invariant
                src@.len() == ow * oh * 4,
                slen == src@.len(),
                nw * nh * 4 <= usize::MAX,
                map_fits(m, ow as int, oh as int, nw as int, nh as int),
                want == remapped(src@, ow as int, oh as int, nw as int, nh as int, m),
                y < nh,
                x <= nw,
                out@.len() == (y * nw + x) * 4,
                forall|k: int| 0 <= k < out@.len() ==> #[trigger] out@[k] == want[k],
            decreases nw - x,
        {
            proof {
                lemma_pixel_inside(nw as int, nh as int, x as int, y as int);
            }
            let src_px: Option<(usize, usize)> = match m {
                PixelMap::Keep => if x < ow && y < oh {
                    Some((x, y))
                } else {
                    None
                },
                PixelMap::Shift { x0, y0 } => if x0 < ow && x < ow - x0 && y0 < oh && y < oh - y0 {
                    Some((x + x0, y + y0))
                } else {
                    None
                },
                PixelMap::FlipH => Some((ow - 1 - x, y)),
                PixelMap::FlipV => Some((x, oh - 1 - y)),
                PixelMap::Quarter => Some((y, oh - 1 - x)),
                PixelMap::Half => Some((ow - 1 - x, oh - 1 - y)),
                PixelMap::ThreeQuarters => Some((ow - 1 - y, x)),
            };
            assert(src_px matches Some(p) ==> p.0 < ow && p.1 < oh);
            let ghost before = out@;
            match src_px {
                Some((sx, sy)) => {
                    proof {
                        lemma_pixel_inside(ow as int, oh as int, sx as int, sy as int);
                    }
                    let i = (sy * ow + sx) * 4;
                    out.push(src[i]);
                    out.push(src[i + 1]);
                    out.push(src[i + 2]);
                    out.push(src[i + 3]);
                },
                None => {
                    out.push(0);
                    out.push(0);
                    out.push(0);
                    out.push(0);
                },
            }
            proof {
                assert forall|k: int| 0 <= k < out@.len() implies #[trigger] out@[k] == want[k] by {
                    if k < before.len() {
                        assert(out@[k] == before[k]);
                    } else {
                        let c = k - before.len();
                        assert(k == (y * nw + x) * 4 + c);
                        lemma_byte_place(nw as int, x as int, y as int, c);
                        assert(map_source(m, ow as int, oh as int, x as int, y as int) == match src_px {
                            Some(p) => Some((p.0 as int, p.1 as int)),
                            None => None::<(int, int)>,
                        });
                    }
                }
            }
            x = x + 1;
        }
        y = y + 1;
        assert(y * nw * 4 == ((y - 1) * nw + nw) * 4) by (nonlinear_arith);
    }
    assert(out@ =~= want) by {
        assert(nh * nw * 4 == nw * nh * 4) by (nonlinear_arith);
    }
    out
}


/// A document: its size, the layers from the bottom up, the active layer,
/// and the composite image with the counters that tell when it is stale.
#[derive(Clone)]
pub struct Document {
    pub width: usize,
    pub height: usize,
    pub layers: Vec<Layer>,
    pub active: usize,
    /// The layers composited, RGBA8: what the screen shows.
    pub composite: Vec<u8>,
    /// Changes so far; the composite is redone only after a change.
    pub rev: u64,
    pub shown_rev: u64,
}

/// What a document holds (the composite and the counters are a cache).
pub struct DocView {
    pub width: nat,
    pub height: nat,
    pub layers: Seq<LayerView>,
    pub active: nat,
}

pub open spec fn layer_view(l: Layer) -> LayerView {
    l@
}

impl View for Document {
    type V = DocView;

    open spec fn view(&self) -> DocView {
        DocView {
            width: self.width as nat,
            height: self.height as nat,
            layers: self.layers@.map_values(|l: Layer| layer_view(l)),
            active: self.active as nat,
        }
    }
}

/// Every layer of `ls` has exactly `n` bytes of pixels.
pub open spec fn layers_sized(ls: Seq<LayerView>, n: int) -> bool {
    forall|i: int| 0 <= i < ls.len() ==> (#[trigger] ls[i]).pixels.len() == n
}

/// The name a layer is shown with: its own name, and when other layers share
/// it, a space and its number among them counted from the bottom.
pub open spec fn name_count(ls: Seq<LayerView>, name: Seq<char>, n: int) -> nat
    decreases n,
{
    if n <= 0 {
        0
    } else {
        name_count(ls, name, n - 1) + if ls[n - 1].meta.name == name {
            1nat
        } else {
            0nat
        }
    }
}

/// The decimal digits of `n`.
pub open spec fn decimal_text(n: nat) -> Seq<char>
    decreases n,
{
    if n < 10 {
        seq![(48 + n) as char]
    } else {
        decimal_text(n / 10).push((48 + n % 10) as char)
    }
}

/// The name shown for layer `i`.
pub open spec fn shown_name(ls: Seq<LayerView>, i: int) -> Seq<char> {
    let base = ls[i].meta.name;
    if name_count(ls, base, ls.len() as int) > 1 {
        base + seq![' '] + decimal_text(name_count(ls, base, i) + 1)
    } else {
        base
    }
}

/// `ls` with layer `i` given the pixels `p`.
pub open spec fn with_pixels(l: LayerView, p: Seq<u8>) -> LayerView {
    LayerView { meta: l.meta, pixels: p, mask: l.mask, mask_on: l.mask_on }
}

/// Every layer remapped from `ow`×`oh` to `nw`×`nh` by `m`.
pub open spec fn remap_all(ls: Seq<LayerView>, ow: int, oh: int, nw: int, nh: int, m: PixelMap) -> Seq<LayerView> {
    ls.map_values(|l: LayerView| with_pixels(l, remapped(l.pixels, ow, oh, nw, nh, m)))
}

pub(crate) fn push_decimal(out: &mut Vec<char>, n: usize)
    ensures
        final(out)@ == old(out)@ + decimal_text(n as nat),
    decreases n,
{
    if n >= 10 {
        push_decimal(out, n / 10);
    }
    let d = (n % 10) as u32;
    let ch = if d == 0 {
        '0'
    } else if d == 1 {
        '1'
    } else if d == 2 {
        '2'
    } else if d == 3 {
        '3'
    } else if d == 4 {
        '4'
    } else if d == 5 {
        '5'
    } else if d == 6 {
        '6'
    } else if d == 7 {
        '7'
    } else if d == 8 {
        '8'
    } else {
        '9'
    };
    out.push(ch);
    assert(final(out)@ =~= old(out)@ + decimal_text(n as nat));
}

/// The change counter after one more change (it wraps around).
pub open spec fn bumped(rev: u64) -> u64 {
    if rev == u64::MAX {
        0
    } else {
        (rev + 1) as u64
    }
}

impl Document {
    /// Every layer has the canvas size, the size fits in memory, and the
    /// active layer exists when there are layers.
    pub open spec fn wf(&self) -> bool {
        &&& self.width * self.height * 4 <= usize::MAX
        &&& layers_sized(self@.layers, self.width * self.height * 4)
        &&& self.layers@.len() > 0 ==> self.active < self.layers@.len()
    }

    /// A document of `w`×`h` pixels with one transparent layer, "Фон".
    pub fn new(w: usize, h: usize) -> (d: Self)
        requires
            w * h * 4 <= usize::MAX,
        ensures
            d.wf(),
            d@ == (DocView { width: w as nat, height: h as nat, layers: seq![blank_layer(w as nat, h as nat, "Фон"@)], active: 0 }),
            d.composite@ == Seq::new((w * h * 4) as nat, |i: int| 0u8),
            d.rev == 1,
            d.shown_rev == u64::MAX,
    {
        let mut layers: Vec<Layer> = Vec::new();
        layers.push(Layer::new(w, h, "Фон"));
        let mut d = Document {
            width: w,
            height: h,
            layers,
            active: 0,
            composite: zeros(w * h * 4),
            rev: 0,
            shown_rev: u64::MAX,
        };
        d.touch();
        assert(d@.layers =~= seq![blank_layer(w as nat, h as nat, "Фон"@)]);
        d
    }

    /// A document with no layers, to be filled from a file.
    pub fn empty() -> (d: Self)
        ensures
            d.wf(),
            d@ == (DocView { width: 0, height: 0, layers: Seq::empty(), active: 0 }),
            d.composite@.len() == 0,
            d.rev == 0,
            d.shown_rev == u64::MAX,
    {
        let d = Document {
            width: 0,
            height: 0,
            layers: Vec::new(),
            active: 0,
            composite: Vec::new(),
            rev: 0,
            shown_rev: u64::MAX,
        };
        assert(d@.layers =~= Seq::<LayerView>::empty());
        d
    }

    /// Counts a change (the counter wraps around).
    pub fn touch(&mut self)
        ensures
            final(self).rev == (if old(self).rev == u64::MAX {
                0
            } else {
                old(self).rev + 1
            }),
            final(self).width == old(self).width,
            final(self).height == old(self).height,
            final(self).layers == old(self).layers,
            final(self).active == old(self).active,
            final(self).composite == old(self).composite,
            final(self).shown_rev == old(self).shown_rev,
    {
        self.rev = self.rev.wrapping_add(1);
    }

    /// The active layer.
    pub fn active_layer(&self) -> (l: &Layer)
        requires
            self.active < self.layers@.len(),
        ensures
            l@ == self@.layers[self.active as int],
    {
        &self.layers[self.active]
    }

    /// A copy: the same size, layers and active layer; the composite is left
    /// empty, to be redone from the layers.
    pub fn copy(&self) -> (d: Self)
        ensures
            d@ == self@,
            d.composite@.len() == 0,
            d.rev == self.rev,
            d.shown_rev == u64::MAX,
    {
        let mut layers: Vec<Layer> = Vec::new();
        let mut i: usize = 0;
        while i < self.layers.len()
            invariant
                i <= self.layers@.len(),
                layers@.len() == i,
                forall|j: int| 0 <= j < i ==> (#[trigger] layers@[j])@ == self.layers@[j]@,
            decreases self.layers@.len() - i,
        {
            layers.push(self.layers[i].copy());
            i = i + 1;
        }
        let d = Document {
            width: self.width,
            height: self.height,
            layers,
            active: self.active,
            composite: Vec::new(),
            rev: self.rev,
            shown_rev: u64::MAX,
        };
        assert(d@.layers =~= self@.layers);
        d
    }

    /// The name layer `i` is shown with: its own, or with a number among the
    /// layers that share it.
    pub fn layer_name(&self, i: usize) -> (s: String)
        requires
            i < self.layers@.len(),
        ensures
            s@ == shown_name(self@.layers, i as int),
    {
        let ghost ls = self@.layers;
        let base = &self.layers[i].meta.name;
        let mut n: usize = 0;
        let mut before: usize = 0;
        let mut j: usize = 0;
        while j < self.layers.len()
            invariant
                ls == self@.layers,
                i < ls.len(),
                base@ == ls[i as int].meta.name,
                j <= ls.len(),
                n == name_count(ls, base@, j as int),
                before == name_count(ls, base@, if j < i {
                    j as int
                } else {
                    i as int
                }),
                n <= j,
                before <= n,
                j > i ==> before < n,
            decreases ls.len() - j,
        {
            assert(ls[j as int] == self.layers@[j as int]@);
            if self.layers[j].meta.name == *base {
                n = n + 1;
                if j < i {
                    before = before + 1;
                }
            }
            j = j + 1;
        }
        let mut out = base.clone();
        if n > 1 {
            let mut tail: Vec<char> = Vec::new();
            tail.push(' ');
            push_decimal(&mut tail, before + 1);
            let t = string_from_chars(tail.as_slice());
            out.append(t.as_str());
        }
        out
    }

    /// Adds a transparent layer on top and makes it active; returns its
    /// index.
    pub fn add_layer(&mut self, name: &str) -> (i: usize)
        requires
            old(self).wf(),
            old(self).layers@.len() < usize::MAX,
        ensures
            final(self).wf(),
            i == old(self).layers@.len(),
            final(self)@ == (DocView {
                layers: old(self)@.layers.push(blank_layer(old(self).width as nat, old(self).height as nat, name@)),
                active: i as nat,
                ..old(self)@
            }),
            final(self).rev == bumped(old(self).rev),
    {
        let i = self.layers.len();
        let l = Layer::new(self.width, self.height, name);
        self.layers.push(l);
        self.active = i;
        self.touch();
        assert(self@.layers =~= old(self)@.layers.push(blank_layer(self.width as nat, self.height as nat, name@)));
        i
    }

    /// Puts a copy of layer `index`, named with " копия" added, just above
    /// it and makes the copy active; returns its index.
    pub fn duplicate_layer(&mut self, index: usize) -> (r: usize)
        requires
            old(self).wf(),
            index < old(self).layers@.len(),
            old(self).layers@.len() < usize::MAX,
        ensures
            final(self).wf(),
            r == index + 1,
            final(self)@ == (DocView {
                layers: old(self)@.layers.insert(
                    index + 1,
                    LayerView {
                        meta: MetaView { name: old(self)@.layers[index as int].meta.name + " копия"@, ..old(self)@.layers[index as int].meta },
                        ..old(self)@.layers[index as int]
                    },
                ),
                active: r as nat,
                ..old(self)@
            }),
            final(self).rev == bumped(old(self).rev),
    {
        let mut l = self.layers[index].copy();
        l.meta.name.append(" копия");
        self.layers.insert(index + 1, l);
        self.active = index + 1;
        self.touch();
        assert(self@.layers =~= old(self)@.layers.insert(
            index + 1,
            LayerView {
                meta: MetaView { name: old(self)@.layers[index as int].meta.name + " копия"@, ..old(self)@.layers[index as int].meta },
                ..old(self)@.layers[index as int]
            },
        ));
        index + 1
    }

    /// Removes layer `index` and returns it; the last layer and a missing
    /// one are not removed. The active layer stays the same layer where it
    /// can, else the nearest below.
    pub fn delete_layer(&mut self, index: usize) -> (r: Option<Layer>)
        requires
            old(self).wf(),
        ensures
            final(self).wf(),
            (old(self).layers@.len() <= 1 || index >= old(self).layers@.len()) ==> r is None && final(self)@ == old(self)@,
            (old(self).layers@.len() > 1 && index < old(self).layers@.len()) ==> {
                &&& r matches Some(l) && l@ == old(self)@.layers[index as int]
                &&& final(self)@.layers == old(self)@.layers.remove(index as int)
                &&& final(self)@.width == old(self)@.width
                &&& final(self)@.height == old(self)@.height
                &&& final(self)@.active == if old(self).active >= old(self).layers@.len() - 1 {
                    (old(self).layers@.len() - 2) as nat
                } else if old(self).active > index {
                    (old(self).active - 1) as nat
                } else {
                    old(self).active as nat
                }
            },
            final(self).rev == if r is Some {
                bumped(old(self).rev)
            } else {
                old(self).rev
            },
    {
        if self.layers.len() <= 1 || index >= self.layers.len() {
            return None;
        }
        let l = self.layers.remove(index);
        if self.active >= self.layers.len() {
            self.active = self.layers.len() - 1;
        } else if self.active > index {
            self.active = self.active - 1;
        }
        self.touch();
        assert(self@.layers =~= old(self)@.layers.remove(index as int));
        Some(l)
    }

    /// Moves layer `from` to position `to` and makes it active; nothing
    /// happens when either is missing or they are equal.
    pub fn move_layer(&mut self, from: usize, to: usize)
        requires
            old(self).wf(),
        ensures
            final(self).wf(),
            final(self)@ == if from >= old(self).layers@.len() || to >= old(self).layers@.len() || from == to {
                old(self)@
            } else {
                DocView {
                    layers: old(self)@.layers.remove(from as int).insert(to as int, old(self)@.layers[from as int]),
                    active: to as nat,
                    ..old(self)@
                }
            },
            final(self).rev == if from >= old(self).layers@.len() || to >= old(self).layers@.len() || from == to {
                old(self).rev
            } else {
                bumped(old(self).rev)
            },
    {
        if from >= self.layers.len() || to >= self.layers.len() || from == to {
            return;
        }
        let l = self.layers.remove(from);
        self.layers.insert(to, l);
        self.active = to;
        self.touch();
        assert(self@.layers =~= old(self)@.layers.remove(from as int).insert(to as int, old(self)@.layers[from as int]));
    }
}


/// The document resized to `w`×`h`, content kept at the top left.
pub open spec fn spec_resize(d: DocView, w: nat, h: nat) -> DocView {
    if w == d.width && h == d.height {
        d
    } else {
        DocView {
            width: w,
            height: h,
            layers: remap_all(d.layers, d.width as int, d.height as int, w as int, h as int, PixelMap::Keep),
            active: d.active,
        }
    }
}

/// The smaller of two numbers.
pub open spec fn min_nat(a: nat, b: nat) -> nat {
    if a <= b {
        a
    } else {
        b
    }
}

/// `v` held within `lo..=hi`.
pub open spec fn clamp_nat(v: nat, lo: nat, hi: nat) -> nat {
    if v < lo {
        lo
    } else if v > hi {
        hi
    } else {
        v
    }
}

/// The document cut to the rectangle at `(x0, y0)` of `w`×`h`, the
/// rectangle first held inside the canvas and made at least one pixel.
pub open spec fn spec_crop(d: DocView, x0: nat, y0: nat, w: nat, h: nat) -> DocView {
    let x0 = min_nat(x0, d.width);
    let y0 = min_nat(y0, d.height);
    let w = clamp_nat(w, 1, (d.width - x0) as nat);
    let h = clamp_nat(h, 1, (d.height - y0) as nat);
    if w == d.width && h == d.height && x0 == 0 && y0 == 0 {
        d
    } else {
        DocView {
            width: w,
            height: h,
            layers: remap_all(d.layers, d.width as int, d.height as int, w as int, h as int, PixelMap::Shift { x0: x0 as usize, y0: y0 as usize }),
            active: d.active,
        }
    }
}

/// The flip of the horizontal or the vertical direction.
pub open spec fn flip_map(horizontal: bool) -> PixelMap {
    if horizontal {
        PixelMap::FlipH
    } else {
        PixelMap::FlipV
    }
}

/// Layer `index` mirrored.
pub open spec fn spec_flip_layer(d: DocView, index: int, horizontal: bool) -> DocView {
    DocView {
        layers: d.layers.update(
            index,
            with_pixels(d.layers[index], remapped(d.layers[index].pixels, d.width as int, d.height as int, d.width as int, d.height as int, flip_map(horizontal))),
        ),
        ..d
    }
}

/// Every layer mirrored.
pub open spec fn spec_mirror(d: DocView, horizontal: bool) -> DocView {
    DocView {
        layers: remap_all(d.layers, d.width as int, d.height as int, d.width as int, d.height as int, flip_map(horizontal)),
        ..d
    }
}

/// `quarters` reduced to `0..4`.
pub open spec fn quarter_count(quarters: int) -> int {
    let q = quarters % 4;
    if q < 0 {
        q + 4
    } else {
        q
    }
}

/// The turn by `q` quarters (`1..=3`).
pub open spec fn turn_map(q: int) -> PixelMap {
    if q == 1 {
        PixelMap::Quarter
    } else if q == 2 {
        PixelMap::Half
    } else {
        PixelMap::ThreeQuarters
    }
}

/// The document turned clockwise by `quarters` quarter turns.
pub open spec fn spec_rotate(d: DocView, quarters: int) -> DocView {
    let q = quarter_count(quarters);
    if q == 0 {
        d
    } else {
        let (nw, nh) = if q % 2 == 1 {
            (d.height, d.width)
        } else {
            (d.width, d.height)
        };
        DocView {
            width: nw,
            height: nh,
            layers: remap_all(d.layers, d.width as int, d.height as int, nw as int, nh as int, turn_map(q)),
            active: d.active,
        }
    }
}

impl Document {
    /// Rebuilds the pixels of every layer, `ow`×`oh` to `nw`×`nh`, by `m`.
    fn remap_layers(&mut self, nw: usize, nh: usize, m: PixelMap)
        requires
            old(self).wf(),
            nw * nh * 4 <= usize::MAX,
            map_fits(m, old(self).width as int, old(self).height as int, nw as int, nh as int),
        ensures
            final(self)@.layers == remap_all(
                old(self)@.layers,
                old(self).width as int,
                old(self).height as int,
                nw as int,
                nh as int,
                m,
            ),
            layers_sized(final(self)@.layers, nw * nh * 4),
            final(self).layers@.len() == old(self).layers@.len(),
            final(self).width == old(self).width,
            final(self).height == old(self).height,
            final(self).active == old(self).active,
            final(self).composite == old(self).composite,
            final(self).rev == old(self).rev,
            final(self).shown_rev == old(self).shown_rev,
    {
        let ow = self.width;
        let oh = self.height;
        let ghost want = remap_all(old(self)@.layers, ow as int, oh as int, nw as int, nh as int, m);
        let mut olds: Vec<Layer> = Vec::new();
        std::mem::swap(&mut olds, &mut self.layers);
        let ghost orig = olds@;
        let n = olds.len();
        let mut news: Vec<Layer> = Vec::new();
        let mut i: usize = 0;
        while i < n
            invariant
                n == orig.len(),
                i <= n,
                olds@ == orig.subrange(i as int, n as int),
                orig.map_values(|l: Layer| layer_view(l)) == old(self)@.layers,
                layers_sized(old(self)@.layers, ow * oh * 4),
                nw * nh * 4 <= usize::MAX,
                map_fits(m, ow as int, oh as int, nw as int, nh as int),
                want == remap_all(old(self)@.layers, ow as int, oh as int, nw as int, nh as int, m),
                news@.len() == i,
                forall|j: int| 0 <= j < i ==> (#[trigger] news@[j])@ == want[j],
            decreases n - i,
        {
            let l = olds.remove(0);
            proof {
                assert(l == orig[i as int]);
                assert(old(self)@.layers[i as int] == l@);
                assert(olds@ =~= orig.subrange(i + 1, n as int));
            }
            let pixels = remap(l.pixels.as_slice(), ow, oh, nw, nh, m);
            news.push(Layer { meta: l.meta, pixels, mask: l.mask, mask_on: l.mask_on });
            i = i + 1;
        }
        self.layers = news;
        assert(self@.layers =~= want);
    }

    /// Resizes the canvas to `w`×`h`: every layer keeps its pixels at the top
    /// left, new pixels are transparent. The same size changes nothing.
    pub fn resize(&mut self, w: usize, h: usize)
        requires
            old(self).wf(),
            w * h * 4 <= usize::MAX,
        ensures
            final(self).wf(),
            final(self)@ == spec_resize(old(self)@, w as nat, h as nat),
            !(w == old(self).width && h == old(self).height) ==> final(self).composite@ == Seq::new(
                (w * h * 4) as nat,
                |i: int| 0u8,
            ),
            final(self).rev == if w == old(self).width && h == old(self).height {
                old(self).rev
            } else {
                bumped(old(self).rev)
            },
    {
        if w == self.width && h == self.height {
            return;
        }
        self.remap_layers(w, h, PixelMap::Keep);
        self.width = w;
        self.height = h;
        self.composite = zeros(w * h * 4);
        self.touch();
    }

    /// Cuts the canvas to the rectangle at `(x0, y0)` of `w`×`h`, held
    /// inside the canvas and at least one pixel; the content moves with it.
    pub fn crop(&mut self, x0: usize, y0: usize, w: usize, h: usize)
        requires
            old(self).wf(),
            x0 < old(self).width,
            y0 < old(self).height,
        ensures
            final(self).wf(),
            final(self)@ == spec_crop(old(self)@, x0 as nat, y0 as nat, w as nat, h as nat),
            final(self).rev == if final(self).width == old(self).width && final(self).height == old(self).height {
                old(self).rev
            } else {
                bumped(old(self).rev)
            },
    {
        let x0 = if x0 < self.width {
            x0
        } else {
            self.width
        };
        let y0 = if y0 < self.height {
            y0
        } else {
            self.height
        };
        let mw = self.width - x0;
        let mh = self.height - y0;
        let w = if w < 1 {
            1
        } else if w > mw {
            mw
        } else {
            w
        };
        let h = if h < 1 {
            1
        } else if h > mh {
            mh
        } else {
            h
        };
        if w == self.width && h == self.height && x0 == 0 && y0 == 0 {
            return;
        }
        assert(w * h * 4 <= self.width * self.height * 4) by (nonlinear_arith)
            requires
                w <= self.width,
                h <= self.height,
        ;
        self.remap_layers(w, h, PixelMap::Shift { x0, y0 });
        self.width = w;
        self.height = h;
        self.composite = zeros(w * h * 4);
        self.touch();
    }

    /// Mirrors layer `index`, left to right or top to bottom.
    pub fn flip_layer(&mut self, index: usize, horizontal: bool)
        requires
            old(self).wf(),
            index < old(self).layers@.len(),
        ensures
            final(self).wf(),
            final(self)@ == spec_flip_layer(old(self)@, index as int, horizontal),
            final(self).rev == bumped(old(self).rev),
    {
        let w = self.width;
        let h = self.height;
        let m = if horizontal {
            PixelMap::FlipH
        } else {
            PixelMap::FlipV
        };
        let l = self.layers.remove(index);
        let ghost lv = l@;
        assert(lv == old(self)@.layers[index as int]);
        let pixels = remap(l.pixels.as_slice(), w, h, w, h, m);
        self.layers.insert(index, Layer { meta: l.meta, pixels, mask: l.mask, mask_on: l.mask_on });
        self.touch();
        assert(self@.layers =~= spec_flip_layer(old(self)@, index as int, horizontal).layers);
    }

    /// Turns the whole document clockwise by `quarters` quarter turns
    /// (taken modulo four; odd counts swap the sides).
    pub fn rotate(&mut self, quarters: i32)
        requires
            old(self).wf(),
        ensures
            final(self).wf(),
            final(self)@ == spec_rotate(old(self)@, quarters as int),
            final(self).rev == if quarters % 4 == 0 {
                old(self).rev
            } else {
                bumped(old(self).rev)
            },
    {
        let r = quarters % 4;
        let q = if r < 0 {
            r + 4
        } else {
            r
        };
        if q == 0 {
            return;
        }
        let ow = self.width;
        let oh = self.height;
        let (nw, nh) = if q % 2 == 1 {
            (oh, ow)
        } else {
            (ow, oh)
        };
        let m = if q == 1 {
            PixelMap::Quarter
        } else if q == 2 {
            PixelMap::Half
        } else {
            PixelMap::ThreeQuarters
        };
        assert(nw * nh * 4 == ow * oh * 4) by (nonlinear_arith)
            requires
                (nw == oh && nh == ow) || (nw == ow && nh == oh),
        ;
        self.remap_layers(nw, nh, m);
        self.width = nw;
        self.height = nh;
        self.composite = zeros(nw * nh * 4);
        self.touch();
    }

    /// Mirrors every layer, left to right or top to bottom.
    pub fn mirror(&mut self, horizontal: bool)
        requires
            old(self).wf(),
        ensures
            final(self).wf(),
            final(self)@ == spec_mirror(old(self)@, horizontal),
            final(self).rev == bumped(old(self).rev),
    {
        let w = self.width;
        let h = self.height;
        let m = if horizontal {
            PixelMap::FlipH
        } else {
            PixelMap::FlipV
        };
        self.remap_layers(w, h, m);
        self.composite = zeros(w * h * 4);
        self.touch();
    }
}


/// The layer takes part in the picture: it is visible and its opacity is
/// above zero.
pub open spec fn counts(l: LayerView) -> bool {
    l.meta.visible && !opacity_at_most_zero(l.meta.opacity)
}

/// Pixel `(x, y)` of the canvas is not fully transparent in some layer that
/// takes part in the picture.
pub open spec fn shows(d: DocView, x: int, y: int) -> bool {
    &&& 0 <= x < d.width
    &&& 0 <= y < d.height
    &&& exists|i: int|
        0 <= i < d.layers.len() && counts(d.layers[i]) && #[trigger] d.layers[i].pixels[(y * d.width + x) * 4 + 3]
            != 0
}

/// `(x0, y0, x1, y1)` is the smallest frame around the pixels that show.
pub open spec fn content_frame(d: DocView, x0: int, y0: int, x1: int, y1: int) -> bool {
    &&& forall|x: int, y: int| shows(d, x, y) ==> x0 <= x < x1 && y0 <= y < y1
    &&& exists|y: int| #[trigger] shows(d, x0, y)
    &&& exists|x: int| #[trigger] shows(d, x, y0)
    &&& exists|y: int| #[trigger] shows(d, x1 - 1, y)
    &&& exists|x: int| #[trigger] shows(d, x, y1 - 1)
}

impl Document {
    fn shown_at(&self, x: usize, y: usize) -> (r: bool)
        requires
            self.wf(),
            x < self.width,
            y < self.height,
        ensures
            r == shows(self@, x as int, y as int),
    {
        proof {
            lemma_pixel_inside(self.width as int, self.height as int, x as int, y as int);
        }
        let k = (y * self.width + x) * 4 + 3;
        let mut i: usize = 0;
        while i < self.layers.len()
            invariant
                self.wf(),
                x < self.width,
                y < self.height,
                k == (y * self.width + x) * 4 + 3,
                k < self.width * self.height * 4,
                i <= self.layers@.len(),
                forall|j: int|
                    0 <= j < i ==> !(counts(self@.layers[j]) && #[trigger] self@.layers[j].pixels[k as int] != 0),
            decreases self.layers@.len() - i,
        {
            let l = &self.layers[i];
            assert(self@.layers[i as int] == l@);
            if l.meta.visible && !(l.meta.opacity == 0 || (0x8000_0000 <= l.meta.opacity && l.meta.opacity
                <= 0xFF80_0000)) && l.pixels[k] != 0 {
                assert(self@.layers[i as int].pixels[(y * self@.width + x) * 4 + 3] != 0);
                return true;
            }
            i = i + 1;
        }
        proof {
            assert forall|j: int|
                0 <= j < self@.layers.len() && counts(self@.layers[j]) implies #[trigger] self@.layers[j].pixels[(y
                * self@.width + x) * 4 + 3] == 0 by {
                assert(!(counts(self@.layers[j]) && self@.layers[j].pixels[k as int] != 0));
            }
        }
        false
    }

    /// The frame `(x, y, width, height)` of the pixels that show in the
    /// visible layers; `None` when nothing shows.
    pub fn content_bounds(&self) -> (r: Option<(usize, usize, usize, usize)>)
        requires
            self.wf(),
        ensures
            r is None <==> !(exists|x: int, y: int| shows(self@, x, y)),
            r matches Some(b) ==> content_frame(self@, b.0 as int, b.1 as int, b.0 + b.2, b.1 + b.3),
    {
        let w = self.width;
        let h = self.height;
        let mut x0: usize = 0;
        let mut y0: usize = 0;
        let mut x1: usize = 0;
        let mut y1: usize = 0;
        let mut any = false;
        let mut y: usize = 0;
        while y < h
            invariant
                self.wf(),
                w == self.width,
                h == self.height,
                y <= h,
                !any ==> forall|a: int, b: int| 0 <= b < y ==> !shows(self@, a, b),
                any ==> {
                    &&& forall|a: int, b: int| 0 <= b < y && shows(self@, a, b) ==> x0 <= a <= x1 && y0 <= b <= y1
                    &&& exists|b: int| #[trigger] shows(self@, x0 as int, b)
                    &&& exists|a: int| #[trigger] shows(self@, a, y0 as int)
                    &&& exists|b: int| #[trigger] shows(self@, x1 as int, b)
                    &&& exists|a: int| #[trigger] shows(self@, a, y1 as int)
                    &&& y1 < y
                    &&& x1 < w
                },
            decreases h - y,
        {
            let mut x: usize = 0;
            while x < w
                invariant
                    self.wf(),
                    w == self.width,
                    h == self.height,
                    y < h,
                    x <= w,
                    !any ==> forall|a: int, b: int| (0 <= b < y || (b == y && a < x)) ==> !shows(self@, a, b),
                    any ==> {
                        &&& forall|a: int, b: int| (0 <= b < y || (b == y && a < x)) && shows(self@, a, b) ==> x0 <= a
                            <= x1 && y0 <= b <= y1
                        &&& exists|b: int| #[trigger] shows(self@, x0 as int, b)
                        &&& exists|a: int| #[trigger] shows(self@, a, y0 as int)
                        &&& exists|b: int| #[trigger] shows(self@, x1 as int, b)
                        &&& exists|a: int| #[trigger] shows(self@, a, y1 as int)
                        &&& y1 <= y
                        &&& x1 < w
                    },
                decreases w - x,
            {
                if self.shown_at(x, y) {
                    if !any {
                        x0 = x;
                        y0 = y;
                        x1 = x;
                        y1 = y;
                        any = true;
                    } else {
                        if x < x0 {
                            x0 = x;
                        }
                        if y < y0 {
                            y0 = y;
                        }
                        if x > x1 {
                            x1 = x;
                        }
                        if y > y1 {
                            y1 = y;
                        }
                    }
                }
                x = x + 1;
            }
            y = y + 1;
        }
        if !any {
            proof {
                assert forall|a: int, b: int| !shows(self@, a, b) by {
                    if 0 <= b < h {
                    }
                }
            }
            return None;
        }
        proof {
            let wy = choose|b: int| shows(self@, x1 as int, b);
            assert(shows(self@, (x1 + 1) - 1, wy));
            let wx = choose|a: int| shows(self@, a, y1 as int);
            assert(shows(self@, wx, (y1 + 1) - 1));
            let vy = choose|b: int| shows(self@, x0 as int, b);
            assert(shows(self@, x0 as int, vy));
            let vx = choose|a: int| shows(self@, a, y0 as int);
            assert(shows(self@, vx, y0 as int));
            assert(exists|y: int| #[trigger] shows(self@, x0 as int, y));
            assert(exists|x: int| #[trigger] shows(self@, x, y0 as int));
            assert(exists|y: int| #[trigger] shows(self@, (x1 + 1) - 1, y));
            assert(exists|x: int| #[trigger] shows(self@, x, (y1 + 1) - 1));
            assert(x0 <= x1 && y0 <= y1);
        }
        Some((x0, y0, x1 + 1 - x0, y1 + 1 - y0))
    }
}


/// Byte `k` of a `w`×`h` RGBA8 buffer is channel `k % 4` of the pixel at
/// column `(k / 4) % w`, row `(k / 4) / w`.
pub proof fn lemma_byte_split(w: int, h: int, k: int)
    requires
        0 <= w,
        0 <= k < w * h * 4,
    ensures
        0 <= (k / 4) % w < w,
        0 <= (k / 4) / w < h,
        k == (((k / 4) / w) * w + (k / 4) % w) * 4 + k % 4,
{
    assert(w > 0 && h > 0) by (nonlinear_arith)
        requires
            0 <= w,
            0 <= k < w * h * 4,
    ;
    vstd::arithmetic::div_mod::lemma_fundamental_div_mod(k, 4);
    vstd::arithmetic::div_mod::lemma_fundamental_div_mod(k / 4, w);
    assert(k / 4 < w * h) by (nonlinear_arith)
        requires
            0 <= k < w * h * 4,
            k == 4 * (k / 4) + k % 4,
            0 <= k % 4 < 4,
    ;
    vstd::arithmetic::div_mod::lemma_div_pos_is_pos(k / 4, w);
    assert((k / 4) / w < h) by (nonlinear_arith)
        requires
            0 <= k / 4 < w * h,
            k / 4 == w * ((k / 4) / w) + (k / 4) % w,
            0 <= (k / 4) % w < w,
            w > 0,
    ;
    vstd::arithmetic::div_mod::lemma_mod_pos_bound(k / 4, w);
    assert(w * ((k / 4) / w) == ((k / 4) / w) * w) by (nonlinear_arith);
}

/// Going by `m1` from `ow`×`oh` to `w1`×`h1` and then by `m2` to `w2`×`h2`
/// takes every new pixel from the same old pixel as going by `m3`.
pub open spec fn composes(m1: PixelMap, m2: PixelMap, m3: PixelMap, ow: int, oh: int, w1: int, h1: int, w2: int, h2: int) -> bool {
    forall|x: int, y: int|
        0 <= x < w2 && 0 <= y < h2 ==> match #[trigger] map_source(m2, w1, h1, x, y) {
            Some(s) => 0 <= s.0 < w1 && 0 <= s.1 < h1 && map_source(m1, ow, oh, s.0, s.1) == map_source(m3, ow, oh, x, y),
            None => false,
        }
}

/// Two remappings in a row are the composed remapping.
pub proof fn lemma_remap_compose(
    p: Seq<u8>,
    m1: PixelMap,
    m2: PixelMap,
    m3: PixelMap,
    ow: int,
    oh: int,
    w1: int,
    h1: int,
    w2: int,
    h2: int,
)
    requires
        0 <= w1,
        0 <= w2,
        0 <= h1,
        0 <= h2,
        composes(m1, m2, m3, ow, oh, w1, h1, w2, h2),
    ensures
        remapped(remapped(p, ow, oh, w1, h1, m1), w1, h1, w2, h2, m2) == remapped(p, ow, oh, w2, h2, m3),
{
    let q = remapped(p, ow, oh, w1, h1, m1);
    let l = remapped(q, w1, h1, w2, h2, m2);
    let r = remapped(p, ow, oh, w2, h2, m3);
    assert forall|k: int| 0 <= k < l.len() implies l[k] == r[k] by {
        lemma_byte_split(w2, h2, k);
        let x = (k / 4) % w2;
        let y = (k / 4) / w2;
        let c = k % 4;
        let s2 = map_source(m2, w1, h1, x, y).unwrap();
        let k2 = (s2.1 * w1 + s2.0) * 4 + c;
        lemma_byte_place(w1, s2.0, s2.1, c);
        lemma_pixel_inside(w1, h1, s2.0, s2.1);
    }
    assert(l =~= r);
}

/// Remapping in place changes nothing.
pub proof fn lemma_remap_keep(p: Seq<u8>, w: int, h: int)
    requires
        0 <= w,
        p.len() == w * h * 4,
    ensures
        remapped(p, w, h, w, h, PixelMap::Keep) == p,
{
    let r = remapped(p, w, h, w, h, PixelMap::Keep);
    assert forall|k: int| 0 <= k < r.len() implies r[k] == p[k] by {
        lemma_byte_split(w, h, k);
    }
    assert(r =~= p);
}

/// Remapping every layer twice is remapping it by the composed map.
pub proof fn lemma_remap_all_compose(
    ls: Seq<LayerView>,
    m1: PixelMap,
    m2: PixelMap,
    m3: PixelMap,
    ow: int,
    oh: int,
    w1: int,
    h1: int,
    w2: int,
    h2: int,
)
    requires
        0 <= w1,
        0 <= w2,
        0 <= h1,
        0 <= h2,
        composes(m1, m2, m3, ow, oh, w1, h1, w2, h2),
    ensures
        remap_all(remap_all(ls, ow, oh, w1, h1, m1), w1, h1, w2, h2, m2) == remap_all(ls, ow, oh, w2, h2, m3),
{
    let a = remap_all(remap_all(ls, ow, oh, w1, h1, m1), w1, h1, w2, h2, m2);
    let b = remap_all(ls, ow, oh, w2, h2, m3);
    assert forall|i: int| 0 <= i < a.len() implies a[i] == b[i] by {
        lemma_remap_compose(ls[i].pixels, m1, m2, m3, ow, oh, w1, h1, w2, h2);
    }
    assert(a =~= b);
}

/// Remapping every layer in place changes nothing.
pub proof fn lemma_remap_all_keep(ls: Seq<LayerView>, w: int, h: int)
    requires
        0 <= w,
        layers_sized(ls, w * h * 4),
    ensures
        remap_all(ls, w, h, w, h, PixelMap::Keep) == ls,
{
    let a = remap_all(ls, w, h, w, h, PixelMap::Keep);
    assert forall|i: int| 0 <= i < a.len() implies a[i] == ls[i] by {
        lemma_remap_keep(ls[i].pixels, w, h);
    }
    assert(a =~= ls);
}

/// Two quarter turns in a row are a half turn.
proof fn lemma_quarter_quarter(w: int, h: int)
    ensures
        composes(PixelMap::Quarter, PixelMap::Quarter, PixelMap::Half, w, h, h, w, w, h),
{
}

/// Two half turns in a row change nothing.
proof fn lemma_half_half(w: int, h: int)
    ensures
        composes(PixelMap::Half, PixelMap::Half, PixelMap::Keep, w, h, w, h, w, h),
{
}

/// Turning back by three quarters after a quarter turn changes nothing.
proof fn lemma_quarter_back(w: int, h: int)
    ensures
        composes(PixelMap::Quarter, PixelMap::ThreeQuarters, PixelMap::Keep, w, h, h, w, w, h),
{
}

/// Mirroring twice in the same direction changes nothing.
proof fn lemma_flip_flip(w: int, h: int, horizontal: bool)
    ensures
        composes(flip_map(horizontal), flip_map(horizontal), PixelMap::Keep, w, h, w, h, w, h),
{
}

/// Four quarter turns of a document give it back unchanged.
pub proof fn lemma_rotate_four_times(d: DocView)
    requires
        layers_sized(d.layers, (d.width * d.height * 4) as int),
    ensures
        spec_rotate(spec_rotate(spec_rotate(spec_rotate(d, 1), 1), 1), 1) == d,
{
    let w = d.width as int;
    let h = d.height as int;
    let d1 = spec_rotate(d, 1);
    let d2 = spec_rotate(d1, 1);
    let d3 = spec_rotate(d2, 1);
    let d4 = spec_rotate(d3, 1);
    lemma_quarter_quarter(w, h);
    lemma_remap_all_compose(d.layers, PixelMap::Quarter, PixelMap::Quarter, PixelMap::Half, w, h, h, w, w, h);
    assert(d2.layers == remap_all(d.layers, w, h, w, h, PixelMap::Half));
    lemma_remap_all_compose(d2.layers, PixelMap::Quarter, PixelMap::Quarter, PixelMap::Half, w, h, h, w, w, h);
    assert(d4.layers == remap_all(d2.layers, w, h, w, h, PixelMap::Half));
    lemma_half_half(w, h);
    lemma_remap_all_compose(d.layers, PixelMap::Half, PixelMap::Half, PixelMap::Keep, w, h, w, h, w, h);
    lemma_remap_all_keep(d.layers, w, h);
    assert(d4 == d);
}

/// A quarter turn clockwise and then three more give the document back.
pub proof fn lemma_rotate_back(d: DocView)
    requires
        layers_sized(d.layers, (d.width * d.height * 4) as int),
    ensures
        spec_rotate(spec_rotate(d, 1), 3) == d,
{
    let w = d.width as int;
    let h = d.height as int;
    lemma_quarter_back(w, h);
    lemma_remap_all_compose(d.layers, PixelMap::Quarter, PixelMap::ThreeQuarters, PixelMap::Keep, w, h, h, w, w, h);
    lemma_remap_all_keep(d.layers, w, h);
}

/// Mirroring the document twice in the same direction gives it back.
pub proof fn lemma_mirror_twice(d: DocView, horizontal: bool)
    requires
        layers_sized(d.layers, (d.width * d.height * 4) as int),
    ensures
        spec_mirror(spec_mirror(d, horizontal), horizontal) == d,
{
    let w = d.width as int;
    let h = d.height as int;
    lemma_flip_flip(w, h, horizontal);
    lemma_remap_all_compose(d.layers, flip_map(horizontal), flip_map(horizontal), PixelMap::Keep, w, h, w, h, w, h);
    lemma_remap_all_keep(d.layers, w, h);
}

/// Mirroring a layer twice in the same direction gives it back.
pub proof fn lemma_flip_layer_twice(d: DocView, index: int, horizontal: bool)
    requires
        layers_sized(d.layers, (d.width * d.height * 4) as int),
        0 <= index < d.layers.len(),
    ensures
        spec_flip_layer(spec_flip_layer(d, index, horizontal), index, horizontal) == d,
{
    let w = d.width as int;
    let h = d.height as int;
    lemma_flip_flip(w, h, horizontal);
    lemma_remap_compose(d.layers[index].pixels, flip_map(horizontal), flip_map(horizontal), PixelMap::Keep, w, h, w, h, w, h);
    lemma_remap_keep(d.layers[index].pixels, w, h);
    let d2 = spec_flip_layer(spec_flip_layer(d, index, horizontal), index, horizontal);
    assert(d2.layers =~= d.layers);
}

/// One quarter turn clockwise swaps the canvas sides and puts old pixel
/// `(x, y)` of every layer at `(h - 1 - y, x)`.
pub proof fn lemma_rotate_places(d: DocView, i: int, x: int, y: int, c: int)
    requires
        layers_sized(d.layers, (d.width * d.height * 4) as int),
        0 <= i < d.layers.len(),
        0 <= x < d.width,
        0 <= y < d.height,
        0 <= c < 4,
    ensures
        spec_rotate(d, 1).width == d.height,
        spec_rotate(d, 1).height == d.width,
        spec_rotate(d, 1).layers[i].pixels[(x * d.height + (d.height - 1 - y)) * 4 + c]
            == d.layers[i].pixels[(y * d.width + x) * 4 + c],
{
    let w = d.width as int;
    let h = d.height as int;
    let nx = h - 1 - y;
    lemma_byte_place(h, nx, x, c);
    lemma_pixel_inside(h, w, nx, x);
    assert(x * h + nx == x * h + (h - 1 - y));
}

/// Turning by a whole number of full turns (`quarters` a multiple of four,
/// negative too) changes nothing.
pub proof fn lemma_rotate_whole_turns(d: DocView, quarters: int)
    requires
        quarters % 4 == 0,
    ensures
        spec_rotate(d, quarters) == d,
{
}

/// The quarter-turn laws together: one turn swaps the sides and puts old
/// pixel `(x, y)` at `(h - 1 - y, x)` (`lemma_rotate_places`); whole turns
/// change nothing; one turn and then three, or four single turns, give the
/// document back.
pub proof fn lemma_rotate_laws(d: DocView)
    requires
        layers_sized(d.layers, (d.width * d.height * 4) as int),
    ensures
        spec_rotate(d, 1).width == d.height,
        spec_rotate(d, 1).height == d.width,
        forall|i: int, x: int, y: int, c: int|
            0 <= i < d.layers.len() && 0 <= x < d.width && 0 <= y < d.height && 0 <= c < 4 ==> #[trigger] spec_rotate(
                d,
                1,
            ).layers[i].pixels[(x * d.height + (d.height - 1 - y)) * 4 + c] == d.layers[i].pixels[(y * d.width + x)
                * 4 + c],
        forall|q: int| q % 4 == 0 ==> #[trigger] spec_rotate(d, q) == d,
        spec_rotate(spec_rotate(d, 1), 3) == d,
        spec_rotate(spec_rotate(spec_rotate(spec_rotate(d, 1), 1), 1), 1) == d,
{
    assert forall|i: int, x: int, y: int, c: int|
        0 <= i < d.layers.len() && 0 <= x < d.width && 0 <= y < d.height && 0 <= c < 4 implies #[trigger] spec_rotate(
            d,
            1,
        ).layers[i].pixels[(x * d.height + (d.height - 1 - y)) * 4 + c] == d.layers[i].pixels[(y * d.width + x) * 4
            + c] by {
        lemma_rotate_places(d, i, x, y, c);
    }
    lemma_rotate_back(d);
    lemma_rotate_four_times(d);
}

} // verus!
