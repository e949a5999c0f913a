//! The selection: its mask, and copying, cutting, deleting, filling and
//! pasting what it holds. The selection frame itself is floating point and
//! kept with the window; it is handed in as canvas pixels.
use crate::doc::{px4, spec_over, zeros, Layer};
use crate::document::{remapped, with_pixels, PixelMap};
use crate::editor::{bytes_eq, copy_bytes, lemma_ok_push, set_layer, spec_end_stroke, App, AppView};
use crate::editor_masks::{frame_filled, frame_fits, fill_frame};
use crate::history::{spec_push, Action, ActionView, StepView};
use crate::morph::{grown_value, mask_grow};
use crate::region::lemma_split_index;
use crate::raster::{
    blit_at, blit_rect, bounds_of_selection, clear_rect, clear_rect_mask, cleared_alpha, extract_rect, in_clip,
    lemma_replaced_step, lemma_replaced_untouched, lemma_replaced_zero, mask_bounds, replaced, selected, RectData,
};
use vstd::prelude::*;

verus! {

/// The editor with the selection mask set to `m` when something is
/// selected in it, and cleared otherwise.
pub open spec fn with_sel_mask(s: AppView, m: Seq<u8>, any: bool) -> AppView {
    AppView {
        sel_mask: if any {
            Some(m)
        } else {
            None
        },
        sel_mask_rev: if s.sel_mask_rev == u64::MAX {
            0
        } else {
            (s.sel_mask_rev + 1) as u64
        },
        ..s
    }
}

/// Something in mask `m` of the `w`×`h` canvas is selected.
pub open spec fn any_selected(m: Seq<u8>, w: nat, h: nat) -> bool {
    exists|x: int, y: int| selected(m, w, h, x, y)
}

/// The fragment of `p`, a `w`×`h` layer, inside the clip `c`.
pub open spec fn fragment(p: Seq<u8>, w: nat, h: nat, c: (usize, usize, usize, usize)) -> (nat, nat, Seq<u8>) {
    let fw = (c.2 - c.0) as nat;
    let fh = (c.3 - c.1) as nat;
    (
        fw,
        fh,
        remapped(p.subrange(0, (w * h * 4) as int), w as int, h as int, fw as int, fh as int, PixelMap::Shift { x0: c.0, y0: c.1 }),
    )
}

/// Layer `p` of width `w` with the clip `c` made transparent.
pub open spec fn cleared_clip(p: Seq<u8>, w: nat, h: nat, c: (usize, usize, usize, usize)) -> Seq<u8> {
    replaced(p, (w * h) as int, |k: int| if in_clip(w as int, k, c) { [0u8, 0u8, 0u8, 0u8] } else { px4(p, 1, k, 0) })
}

/// Layer `p` with the alpha cut where mask `m` covers it.
pub open spec fn cleared_by_mask(p: Seq<u8>, w: nat, h: nat, m: Seq<u8>) -> Seq<u8> {
    replaced(
        p,
        (w * h) as int,
        |k: int|
            {
                let c = px4(p, 1, k, 0);
                [c[0], c[1], c[2], cleared_alpha(c[3], m[k])]
            },
    )
}

/// Pixel `k` of a `w`-wide canvas lies in the frame `(x0, y0, x1, y1)`.
pub open spec fn in_int_frame(w: int, k: int, f: (i32, i32, i32, i32)) -> bool {
    f.0 <= k % w < f.2 && f.1 <= k / w < f.3
}

/// Layer `p` with colour `c` painted over the pixels in frame `f`.
pub open spec fn painted_frame(p: Seq<u8>, w: nat, h: nat, f: (i32, i32, i32, i32), c: [u8; 4]) -> Seq<u8> {
    replaced(
        p,
        (w * h) as int,
        |k: int|
            if in_int_frame(w as int, k, f) {
                spec_over(px4(p, 1, k, 0), c)
            } else {
                px4(p, 1, k, 0)
            },
    )
}

/// The pixels of the active layer.
pub open spec fn active_pixels(s: AppView) -> Seq<u8> {
    s.doc.layers[s.doc.active as int].pixels
}

/// The editor with the active layer's pixels changed to `after`: a history
/// step named `name` when they differ.
pub open spec fn with_active_pixels(s: AppView, after: Seq<u8>, name: Seq<char>) -> AppView {
    let a = s.doc.active;
    let before = active_pixels(s);
    AppView {
        doc: set_layer(s.doc, a as int, with_pixels(s.doc.layers[a as int], after)),
        history: if before != after {
            spec_push(s.history, StepView { name, action: ActionView::Pixels { layer: a, before, after } })
        } else {
            s.history
        },
        ..s
    }
}

/// The active layer is locked.
pub open spec fn active_locked(s: AppView) -> bool {
    s.doc.layers[s.doc.active as int].meta.locked
}

/// The editor after `copy_selection(sel)`.
pub open spec fn spec_app_copy_selection(s0: AppView, sel: Option<Option<(usize, usize, usize, usize)>>) -> AppView {
    match sel {
        None => AppView { notice: Some("Сначала выделите область"@), ..s0 },
        Some(clip) => {
            let s = spec_end_stroke(s0);
            match clip {
                None => AppView { notice: Some("Выделение вне холста"@), ..s },
                Some(c) => AppView {
                    clipboard: Some(fragment(active_pixels(s), s.doc.width, s.doc.height, c)),
                    notice: Some("Скопировано"@),
                    ..s
                },
            }
        },
    }
}

/// The editor after `cut_selection(sel)`.
pub open spec fn spec_app_cut_selection(s0: AppView, sel: Option<Option<(usize, usize, usize, usize)>>) -> AppView {
    match sel {
        None => AppView { notice: Some("Сначала выделите область"@), ..s0 },
        Some(clip) => {
            let s = spec_end_stroke(s0);
            if active_locked(s) {
                AppView { notice: Some("Слой заблокирован"@), ..s }
            } else {
                match clip {
                    None => AppView { notice: Some("Выделение вне холста"@), ..s },
                    Some(c) => {
                        let a = s.doc.active;
                        let before = active_pixels(s);
                        let after = cleared_clip(before, s.doc.width, s.doc.height, c);
                        AppView {
                            doc: set_layer(s.doc, a as int, with_pixels(s.doc.layers[a as int], after)),
                            clipboard: Some(fragment(before, s.doc.width, s.doc.height, c)),
                            history: spec_push(
                                s.history,
                                StepView { name: "Вырезано"@, action: ActionView::Pixels { layer: a, before, after } },
                            ),
                            dirty: true,
                            notice: Some("Вырезано"@),
                            ..s
                        }
                    },
                }
            }
        },
    }
}

/// The editor after `delete_selection(sel)`.
pub open spec fn spec_app_delete_selection(s0: AppView, sel: Option<Option<(usize, usize, usize, usize)>>) -> AppView {
    match sel {
        None => s0,
        Some(clip) => {
            let s = spec_end_stroke(s0);
            if active_locked(s) {
                AppView { notice: Some("Слой заблокирован"@), ..s }
            } else {
                let p = active_pixels(s);
                let after = match s.sel_mask {
                    Some(m) => cleared_by_mask(p, s.doc.width, s.doc.height, m),
                    None => match clip {
                        Some(c) => cleared_clip(p, s.doc.width, s.doc.height, c),
                        None => p,
                    },
                };
                if after == p {
                    s
                } else {
                    AppView {
                        dirty: true,
                        notice: Some("Выделение удалено"@),
                        ..with_active_pixels(s, after, "Удаление выделения"@)
                    }
                }
            }
        },
    }
}

/// The editor after `fill_selection(frame, alpha)`.
pub open spec fn spec_app_fill_selection(s0: AppView, frame: Option<(i32, i32, i32, i32)>, alpha: u8) -> AppView {
    match frame {
        None => AppView { notice: Some("Сначала выделите область"@), ..s0 },
        Some(f) => {
            let s = spec_end_stroke(s0);
            if active_locked(s) {
                AppView { notice: Some("Слой заблокирован"@), ..s }
            } else {
                let col = if s.color_swapped {
                    s.secondary
                } else {
                    s.primary
                };
                let c = [col[0], col[1], col[2], alpha];
                AppView {
                    dirty: true,
                    notice: Some("Область залита"@),
                    ..with_active_pixels(
                        s,
                        painted_frame(active_pixels(s), s.doc.width, s.doc.height, f, c),
                        "Заливка выделения"@,
                    )
                }
            }
        },
    }
}

/// The editor after `floating_commit(data, ox, oy)`.
pub open spec fn spec_app_floating_commit(s: AppView, data: RectData, ox: i32, oy: i32) -> AppView {
    let p = active_pixels(s);
    let w = s.doc.width;
    let after = if data.w == 0 || data.h == 0 {
        p
    } else {
        replaced(p, (w * s.doc.height) as int, |k: int| blit_at(p, w as int, data.pixels@, data.w as int, data.h as int, ox as int, oy as int, k))
    };
    AppView {
        dirty: true,
        notice: Some("Выделение применено"@),
        ..with_active_pixels(s, after, "Вставка выделения"@)
    }
}

fn ge_i32(x: usize, b: i32) -> (r: bool)
    ensures
        r == (x as int >= b as int),
{
    if b < 0 {
        true
    } else {
        x >= b as usize
    }
}

fn lt_i32(x: usize, b: i32) -> (r: bool)
    ensures
        r == ((x as int) < b as int),
{
    if b <= 0 {
        false
    } else {
        x < b as usize
    }
}

/// Paints `c` over the pixels of the `w`×`h` layer in frame `f`.
fn paint_frame(layer: &mut Layer, w: usize, h: usize, f: (i32, i32, i32, i32), c: [u8; 4])
    requires
        old(layer).pixels@.len() == w * h * 4,
        w * h * 4 <= usize::MAX,
    ensures
        final(layer)@ == with_pixels(old(layer)@, painted_frame(old(layer).pixels@, w as nat, h as nat, f, c)),
{
    let ghost p = old(layer).pixels@;
    let ghost g = |k: int|
        if in_int_frame(w as int, k, f) {
            spec_over(px4(p, 1, k, 0), c)
        } else {
            px4(p, 1, k, 0)
        };
    let n = w * h;
    let mut k: usize = 0;
    proof {
        lemma_replaced_zero(p, g);
    }
    while k < n
        invariant
            n == w * h,
            n * 4 <= usize::MAX,
            p.len() == n * 4,
            k <= n,
            layer.pixels@ == replaced(p, k as int, g),
            forall|j: int|
                #[trigger] g(j) == if in_int_frame(w as int, j, f) {
                    spec_over(px4(p, 1, j, 0), c)
                } else {
                    px4(p, 1, j, 0)
                },
            layer.meta == old(layer).meta,
            layer.mask == old(layer).mask,
            layer.mask_on == old(layer).mask_on,
        decreases n - k,
    {
        proof {
            lemma_replaced_untouched(p, k as int, g);
            assert(px4(layer.pixels@, 1, k as int, 0) == px4(p, 1, k as int, 0));
        }
        let x = k % w;
        let y = k / w;
        let inside = ge_i32(x, f.0) && lt_i32(x, f.2) && ge_i32(y, f.1) && lt_i32(y, f.3);
        let ghost before = layer.pixels@;
        if inside {
            layer.blend(1, k, 0, c);
            proof {
                let o = spec_over(px4(p, 1, k as int, 0), c);
                lemma_replaced_step(p, k as int, g, o);
                assert(layer.pixels@ =~= put4_of(before, k as int, o));
            }
        } else {
            proof {
                let o = px4(p, 1, k as int, 0);
                lemma_replaced_step(p, k as int, g, o);
                assert(put4_of(before, k as int, o) =~= before);
            }
        }
        k = k + 1;
    }
    proof {
        assert(layer.pixels@ == painted_frame(p, w as nat, h as nat, f, c));
    }
}

pub open spec fn put4_of(p: Seq<u8>, k: int, c: [u8; 4]) -> Seq<u8> {
    crate::doc::put4(p, k * 4, c)
}

impl App {
    /// Sets the selection mask and returns the frame `(x0, y0, x1, y1)` of
    /// what it selects; a mask that selects nothing clears the selection.
    pub fn set_sel_mask(&mut self, mask: Vec<u8>) -> (r: Option<(usize, usize, usize, usize)>)
        ensures
            r is None <==> !any_selected(mask@, old(self).doc.width as nat, old(self).doc.height as nat),
            r matches Some(b) ==> bounds_of_selection(
                mask@,
                old(self).doc.width as nat,
                old(self).doc.height as nat,
                b.0 as int,
                b.1 as int,
                b.2 as int,
                b.3 as int,
            ),
            final(self)@ == with_sel_mask(old(self)@, mask@, r is Some),
            final(self).doc == old(self).doc,
    {
        let r = mask_bounds(mask.as_slice(), self.doc.width, self.doc.height);
        let ghost mv = mask@;
        match r {
            Some(_) => {
                self.sel_mask = Some(mask);
            },
            None => {
                self.sel_mask = None;
            },
        }
        self.sel_mask_rev = self.sel_mask_rev.wrapping_add(1);
        r
    }

    /// Clears the selection mask.
    pub fn clear_selection(&mut self)
        ensures
            final(self)@ == with_sel_mask(old(self)@, Seq::empty(), false),
            final(self).doc == old(self).doc,
    {
        self.sel_mask = None;
        self.sel_mask_rev = self.sel_mask_rev.wrapping_add(1);
    }

    /// Inverts the selection given by its mask, or by the frame `frame`
    /// (`x0, y0, x1, y1`) when it has none; returns the frame of the new
    /// selection, `None` when it selects nothing or there was no selection.
    pub fn invert_selection(&mut self, frame: Option<(usize, usize, usize, usize)>) -> (r: Option<(usize, usize, usize, usize)>)
        requires
            old(self).wf(),
            frame matches Some(f) ==> f.2 <= old(self).doc.width && f.3 <= old(self).doc.height,
        ensures
            final(self).wf(),
            final(self)@.doc != old(self)@.doc ==> final(self).doc.rev != old(self).doc.rev,
            ({
                let s = spec_end_stroke(old(self)@);
                let w = s.doc.width;
                let h = s.doc.height;
                match frame {
                    None => r is None && final(self)@ == AppView { notice: Some("Сначала что-нибудь выделите"@), ..s },
                    Some(f) => {
                        let m0 = match s.sel_mask {
                            Some(m) => m,
                            None => frame_filled(Seq::new(w * h, |i: int| 0u8), w, f, 255),
                        };
                        let m = Seq::new(m0.len(), |i: int| (255 - m0[i]) as u8);
                        &&& (r is None <==> !any_selected(m, w, h))
                        &&& (r matches Some(b) ==> bounds_of_selection(m, w, h, b.0 as int, b.1 as int, b.2 as int, b.3 as int))
                        &&& final(self)@ == AppView {
                            notice: Some(
                                if r is Some {
                                    "Выделение инвертировано"@
                                } else {
                                    "Выделение пустое"@
                                },
                            ),
                            ..with_sel_mask(s, m, r is Some)
                        }
                    },
                }
            }),
    {
        self.end_stroke();
        let f = match frame {
            None => {
                self.notify("Сначала что-нибудь выделите");
                return None;
            },
            Some(f) => f,
        };
        let w = self.doc.width;
        let h = self.doc.height;
        let mut mask = match &self.sel_mask {
            Some(m) => copy_bytes(m),
            None => {
                let mut z = zeros(w * h);
                proof {
                    if f.0 < f.2 && f.1 < f.3 {
                        assert((f.3 - 1) * w <= (h - 1) * w) by (nonlinear_arith)
                            requires
                                f.3 <= h,
                                f.3 >= 1,
                        ;
                        assert((h - 1) * w + w == h * w) by (nonlinear_arith);
                    }
                }
                fill_frame(&mut z, w, f, 255);
                z
            },
        };
        let inv = crate::editor_masks::inverted_bytes(&mask);
        let r = self.set_sel_mask(inv);
        self.notify(
            if r.is_some() {
                "Выделение инвертировано"
            } else {
                "Выделение пустое"
            },
        );
        r
    }

    /// How much of canvas pixel `(x, y)` is selected: by the selection mask,
    /// else by the frame `frame` (`x0, y0, x1, y1`).
    pub fn sel_cover(&self, x: usize, y: usize, frame: Option<(usize, usize, usize, usize)>) -> (r: u8)
        requires
            self.wf(),
        ensures
            r == match self@.sel_mask {
                None => match frame {
                    None => 0u8,
                    Some(f) => if x < f.0 || y < f.1 || x >= f.2 || y >= f.3 {
                        0u8
                    } else {
                        255u8
                    },
                },
                Some(m) => if x >= self.doc.width || y >= self.doc.height {
                    0u8
                } else if y * self.doc.width + x < m.len() {
                    m[y * self.doc.width + x]
                } else {
                    0u8
                },
            },
    {
        match &self.sel_mask {
            None => match frame {
                None => 0,
                Some(f) => if x < f.0 || y < f.1 || x >= f.2 || y >= f.3 {
                    0
                } else {
                    255
                },
            },
            Some(m) => {
                let w = self.doc.width;
                let h = self.doc.height;
                if x >= w || y >= h {
                    return 0;
                }
                proof {
                    crate::document::lemma_pixel_inside(w as int, h as int, x as int, y as int);
                }
                let i = y * w + x;
                if i < m.len() {
                    m[i]
                } else {
                    0
                }
            },
        }
    }

    /// The selection has a shape of its own: a mask as well as a frame.
    pub fn has_sel_mask(&self, has_frame: bool) -> (r: bool)
        ensures
            r == (self@.sel_mask is Some && has_frame),
    {
        self.sel_mask.is_some() && has_frame
    }

    /// Copies what the selection holds on the active layer. `sel` is `None`
    /// when nothing is selected, else the selection frame held inside the
    /// canvas, `None` when it lies outside (see `spec_app_copy_selection`).
    pub fn copy_selection(&mut self, sel: Option<Option<(usize, usize, usize, usize)>>)
        requires
            old(self).wf(),
            sel matches Some(Some(c)) ==> c.0 < c.2 <= old(self).doc.width && c.1 < c.3 <= old(self).doc.height,
        ensures
            final(self).wf(),
            final(self)@.doc != old(self)@.doc ==> final(self).doc.rev != old(self).doc.rev,
            final(self)@ == spec_app_copy_selection(old(self)@, sel),
    {
        let clip = match sel {
            None => {
                self.notify("Сначала выделите область");
                return;
            },
            Some(c) => c,
        };
        self.end_stroke();
        let a = self.doc.active;
        assert(self@.doc.layers[a as int] == self.doc.layers@[a as int]@);
        let data = extract_rect(&self.doc.layers[a], self.doc.width, self.doc.height, clip);
        if data.w == 0 {
            self.notify("Выделение вне холста");
            return;
        }
        self.clipboard = Some(data);
        self.notify("Скопировано");
    }

    /// Cuts what the selection holds out of the active layer (see
    /// `spec_app_cut_selection`).
    pub fn cut_selection(&mut self, sel: Option<Option<(usize, usize, usize, usize)>>)
        requires
            old(self).wf(),
            sel matches Some(Some(c)) ==> c.0 < c.2 <= old(self).doc.width && c.1 < c.3 <= old(self).doc.height,
        ensures
            final(self).wf(),
            final(self)@.doc != old(self)@.doc ==> final(self).doc.rev != old(self).doc.rev,
            final(self)@ == spec_app_cut_selection(old(self)@, sel),
    {
        let clip = match sel {
            None => {
                self.notify("Сначала выделите область");
                return;
            },
            Some(c) => c,
        };
        self.end_stroke();
        let a = self.doc.active;
        let w = self.doc.width;
        let h = self.doc.height;
        assert(self@.doc.layers[a as int] == self.doc.layers@[a as int]@);
        if self.doc.layers[a].meta.locked {
            self.notify("Слой заблокирован");
            return;
        }
        let ghost s = self@;
        let before = copy_bytes(&self.doc.layers[a].pixels);
        let data = extract_rect(&self.doc.layers[a], w, h, clip);
        if data.w == 0 {
            self.notify("Выделение вне холста");
            return;
        }
        let ghost d = self.doc@;
        let mut l = self.doc.layers.remove(a);
        clear_rect(&mut l, w, h, clip);
        let after = copy_bytes(&l.pixels);
        self.doc.layers.insert(a, l);
        assert(self.doc@.layers =~= d.layers.update(a as int, with_pixels(d.layers[a as int], after@)));
        self.clipboard = Some(data);
        let act = Action::Pixels { layer: a, before, after };
        proof {
            lemma_ok_push(s.history, StepView { name: "Вырезано"@, action: act@ });
        }
        self.history.push("Вырезано", act);
        self.doc.touch();
        self.dirty = true;
        self.notify("Вырезано");
    }

    /// Clears what the selection holds on the active layer: by the
    /// selection mask's coverage, else inside the frame (see
    /// `spec_app_delete_selection`).
    pub fn delete_selection(&mut self, sel: Option<Option<(usize, usize, usize, usize)>>)
        requires
            old(self).wf(),
            sel is Some && !active_locked(old(self)@) ==> (old(self)@.sel_mask matches Some(m) ==> m.len()
                >= old(self).doc.width * old(self).doc.height),
        ensures
            final(self).wf(),
            final(self)@.doc != old(self)@.doc ==> final(self).doc.rev != old(self).doc.rev,
            final(self)@ == spec_app_delete_selection(old(self)@, sel),
    {
        let clip = match sel {
            None => {
                return;
            },
            Some(c) => c,
        };
        self.end_stroke();
        let a = self.doc.active;
        let w = self.doc.width;
        let h = self.doc.height;
        assert(self@.doc.layers[a as int] == self.doc.layers@[a as int]@);
        if self.doc.layers[a].meta.locked {
            self.notify("Слой заблокирован");
            return;
        }
        let ghost s = self@;
        let before = copy_bytes(&self.doc.layers[a].pixels);
        let ghost d = self.doc@;
        let mut l = self.doc.layers.remove(a);
        match &self.sel_mask {
            Some(m) => clear_rect_mask(&mut l, w, h, m.as_slice()),
            None => clear_rect(&mut l, w, h, clip),
        }
        let after = copy_bytes(&l.pixels);
        self.doc.layers.insert(a, l);
        assert(self.doc@.layers =~= d.layers.update(a as int, with_pixels(d.layers[a as int], after@)));
        if !bytes_eq(&before, &after) {
            let act = Action::Pixels { layer: a, before, after };
            proof {
                lemma_ok_push(s.history, StepView { name: "Удаление выделения"@, action: act@ });
            }
            self.history.push("Удаление выделения", act);
            self.doc.touch();
            self.dirty = true;
            self.notify("Выделение удалено");
        } else {
            assert(self.doc@.layers =~= d.layers);
        }
    }

    /// Paints the current colour, with alpha `alpha`, over the pixels of the
    /// selection frame `frame` (`x0, y0, x1, y1`, which may reach past the
    /// canvas) on the active layer (see `spec_app_fill_selection`).
    pub fn fill_selection(&mut self, frame: Option<(i32, i32, i32, i32)>, alpha: u8)
        requires
            old(self).wf(),
        ensures
            final(self).wf(),
            final(self)@.doc != old(self)@.doc ==> final(self).doc.rev != old(self).doc.rev,
            final(self)@ == spec_app_fill_selection(old(self)@, frame, alpha),
    {
        let f = match frame {
            None => {
                self.notify("Сначала выделите область");
                return;
            },
            Some(f) => f,
        };
        self.end_stroke();
        let a = self.doc.active;
        let w = self.doc.width;
        let h = self.doc.height;
        assert(self@.doc.layers[a as int] == self.doc.layers@[a as int]@);
        if self.doc.layers[a].meta.locked {
            self.notify("Слой заблокирован");
            return;
        }
        let ghost s = self@;
        let col = self.color();
        let c = [col[0], col[1], col[2], alpha];
        let before = copy_bytes(&self.doc.layers[a].pixels);
        let ghost d = self.doc@;
        let mut l = self.doc.layers.remove(a);
        paint_frame(&mut l, w, h, f, c);
        let after = copy_bytes(&l.pixels);
        self.doc.layers.insert(a, l);
        assert(self.doc@.layers =~= d.layers.update(a as int, with_pixels(d.layers[a as int], after@)));
        if !bytes_eq(&before, &after) {
            let act = Action::Pixels { layer: a, before, after };
            proof {
                lemma_ok_push(s.history, StepView { name: "Заливка выделения"@, action: act@ });
            }
            self.history.push("Заливка выделения", act);
        }
        self.doc.touch();
        self.dirty = true;
        self.notify("Область залита");
    }

    /// Puts the pasted fragment `data` down on the active layer with its top
    /// left corner at `(ox, oy)` (see `spec_app_floating_commit`).
    pub fn floating_commit(&mut self, data: &RectData, ox: i32, oy: i32)
        requires
            old(self).wf(),
            data.pixels@.len() >= data.w * data.h * 4,
        ensures
            final(self).wf(),
            final(self)@.doc != old(self)@.doc ==> final(self).doc.rev != old(self).doc.rev,
            final(self)@ == spec_app_floating_commit(old(self)@, *data, ox, oy),
    {
        let a = self.doc.active;
        let w = self.doc.width;
        let h = self.doc.height;
        let ghost s = self@;
        assert(self@.doc.layers[a as int] == self.doc.layers@[a as int]@);
        let before = copy_bytes(&self.doc.layers[a].pixels);
        let ghost d = self.doc@;
        let mut l = self.doc.layers.remove(a);
        blit_rect(&mut l, w, h, data, ox, oy);
        let after = copy_bytes(&l.pixels);
        self.doc.layers.insert(a, l);
        assert(self.doc@.layers =~= d.layers.update(a as int, with_pixels(d.layers[a as int], after@)));
        if !bytes_eq(&before, &after) {
            let act = Action::Pixels { layer: a, before, after };
            proof {
                lemma_ok_push(s.history, StepView { name: "Вставка выделения"@, action: act@ });
            }
            self.history.push("Вставка выделения", act);
        }
        self.doc.touch();
        self.dirty = true;
        self.notify("Выделение применено");
    }
}

/// The mask that growing or shrinking starts from: the selection mask, or
/// else the selection frame `frame` (`x0, y0, x1, y1`) filled; an empty
/// mask without either.
pub open spec fn grow_base(s: AppView, frame: Option<(usize, usize, usize, usize)>) -> Seq<u8> {
    let w = s.doc.width;
    let h = s.doc.height;
    match s.sel_mask {
        Some(m) => m,
        None => match frame {
            Some(f) => frame_filled(Seq::new(w * h, |i: int| 0u8), w, f, 255),
            None => Seq::new(w * h, |i: int| 0u8),
        },
    }
}

/// A `w`×`h` mask grown (or shrunk) by `r` (see `grown_value`); bytes past
/// the canvas stay.
pub open spec fn grown_mask(m: Seq<u8>, w: nat, h: nat, r: nat, grow: bool) -> Seq<u8> {
    Seq::new(
        m.len(),
        |k: int|
            if k < w * h {
                grown_value(m, w as int, h as int, r as int, grow, k % (w as int), k / (w as int))
            } else {
                m[k]
            },
    )
}

impl App {
    /// Grows (`grow`) or shrinks the selection by `r` pixels, after ending
    /// the stroke in progress; a selection without a mask of its own is its
    /// frame `frame` (`x0, y0, x1, y1`, inside the canvas). Returns the frame
    /// of the new selection.
    pub fn grow_selection(&mut self, r: usize, grow: bool, frame: Option<(usize, usize, usize, usize)>) -> (res: Option<(usize, usize, usize, usize)>)
        requires
            old(self).wf(),
            frame matches Some(f) ==> f.2 <= old(self).doc.width && f.3 <= old(self).doc.height,
            old(self).sel_mask is Some ==> old(self)@.sel_mask->0.len() >= old(self).doc.width * old(self).doc.height,
        ensures
            final(self).wf(),
            final(self)@.doc != old(self)@.doc ==> final(self).doc.rev != old(self).doc.rev,
            ({
                let s = spec_end_stroke(old(self)@);
                let w = old(self).doc.width as nat;
                let h = old(self).doc.height as nat;
                let m = grown_mask(grow_base(s, frame), w, h, r as nat, grow);
                &&& (res is None <==> !any_selected(m, w, h))
                &&& (res matches Some(b) ==> bounds_of_selection(m, w, h, b.0 as int, b.1 as int, b.2 as int, b.3 as int))
                &&& final(self)@ == (AppView {
                    notice: Some(
                        if grow {
                            "Выделение расширено"@
                        } else {
                            "Выделение сужено"@
                        },
                    ),
                    ..with_sel_mask(s, m, res is Some)
                })
            }),
    {
        self.end_stroke();
        let w = self.doc.width;
        let h = self.doc.height;
        let ghost s = self@;
        assert(w * h <= w * h * 4) by (nonlinear_arith);
        let mut mask: Vec<u8> = match &self.sel_mask {
            Some(m) => copy_bytes(m),
            None => {
                let mut z = zeros(w * h);
                match frame {
                    Some(f) => {
                        assert(frame_fits(f, w as nat, (w * h) as nat)) by {
                            if f.0 < f.2 && f.1 < f.3 {
                                assert((f.3 - 1) * w + f.2 - 1 < w * h) by (nonlinear_arith)
                                    requires
                                        1 <= f.3 <= h,
                                        1 <= f.2 <= w,
                                ;
                            }
                        }
                        fill_frame(&mut z, w, f, 255);
                    },
                    None => {},
                }
                z
            },
        };
        let ghost base = mask@;
        assert(base == grow_base(s, frame));
        mask_grow(mask.as_mut_slice(), w, h, r, grow);
        proof {
            let m = grown_mask(base, w as nat, h as nat, r as nat, grow);
            assert forall|k: int| 0 <= k < base.len() implies mask@[k] == m[k] by {
                if k < w * h {
                    lemma_split_index(w as int, h as int, k);
                    assert(mask@[(k / (w as int)) * w + k % (w as int)] == grown_value(
                        base,
                        w as int,
                        h as int,
                        r as int,
                        grow,
                        k % (w as int),
                        k / (w as int),
                    ));
                }
            }
            assert(mask@ =~= m);
        }
        let res = self.set_sel_mask(mask);
        if grow {
            self.notify("Выделение расширено");
        } else {
            self.notify("Выделение сужено");
        }
        res
    }
}

} // verus!
