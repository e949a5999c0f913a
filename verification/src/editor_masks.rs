//! Layer masks and the selection mask. A selection frame is handed in as
//! canvas pixels `(x0, y0, x1, y1)`, the columns `x0..x1` of the rows
//! `y0..y1`.
use crate::doc::{opt_bytes_view, zeros, Layer, LayerView};
use crate::document::Document;
use crate::editor::{
    copy_bytes, copy_opt_bytes, lemma_ok_push, put_mask, set_layer, spec_end_stroke, App, AppView,
};
use crate::history::{spec_push, Action, ActionView, StepView};
use vstd::prelude::*;

verus! {

/// Painting switched onto the active layer's mask (`on`) or back onto its
/// pixels; switching onto a mask the layer does not have only says so.
pub open spec fn spec_app_set_edit_mask(s: AppView, on: bool) -> AppView {
    let present = s.doc.layers[s.doc.active as int].mask is Some;
    if on && !present {
        AppView { notice: Some("Сначала добавьте маску"@), ..s }
    } else {
        AppView {
            edit_mask: on && present,
            notice: Some(
                if on && present {
                    "Рисование по маске"@
                } else {
                    "Рисование по слою"@
                },
            ),
            ..s
        }
    }
}


/// Byte `i` of a mask of width `w` lies in the frame `f`.
pub open spec fn in_frame(i: int, w: nat, f: (usize, usize, usize, usize)) -> bool {
    w > 0 && f.0 <= i % (w as int) < f.2 && f.1 <= i / (w as int) < f.3
}

/// Every byte of a frame that is not empty lies before `len`.
pub open spec fn frame_fits(f: (usize, usize, usize, usize), w: nat, len: nat) -> bool {
    f.0 >= f.2 || f.1 >= f.3 || (f.3 - 1) * w + f.2 - 1 < len
}

/// `m` with the bytes in frame `f` set to `v`.
pub open spec fn frame_filled(m: Seq<u8>, w: nat, f: (usize, usize, usize, usize), v: u8) -> Seq<u8> {
    Seq::new(m.len(), |i: int| if in_frame(i, w, f) { v } else { m[i] })
}

/// Mask `m` with `v` put where the selection is: where the selection mask
/// covers more than 8, else inside the frame, else everywhere.
pub open spec fn selection_filled(
    m: Seq<u8>,
    sel: Option<Seq<u8>>,
    frame: Option<(usize, usize, usize, usize)>,
    w: nat,
    v: u8,
) -> Seq<u8> {
    match sel {
        Some(sm) => Seq::new(m.len(), |i: int| if i < sm.len() && sm[i] > 8 { v } else { m[i] }),
        None => match frame {
            Some(f) => frame_filled(m, w, f, v),
            None => Seq::new(m.len(), |i: int| v),
        },
    }
}

/// The editor with a mask on the active layer: a missing one is made white
/// and painting on it starts.
pub open spec fn mask_ready(s: AppView) -> AppView {
    let a = s.doc.active as int;
    let l = s.doc.layers[a];
    if l.mask is None {
        AppView {
            doc: set_layer(
                s.doc,
                a,
                LayerView { mask: Some(Seq::new(s.doc.width * s.doc.height, |i: int| 255u8)), mask_on: true, ..l },
            ),
            edit_mask: true,
            ..s
        }
    } else {
        s
    }
}

/// The mask of the active layer; a missing one counts as empty.
pub open spec fn active_mask(s: AppView) -> Seq<u8> {
    match s.doc.layers[s.doc.active as int].mask {
        Some(m) => m,
        None => Seq::empty(),
    }
}

/// The editor with the active layer's mask set to `m`, as a history step
/// named `name`.
pub open spec fn with_active_mask(s: AppView, m: Seq<u8>, name: Seq<char>) -> AppView {
    let a = s.doc.active;
    let l = s.doc.layers[a as int];
    AppView {
        doc: set_layer(s.doc, a as int, LayerView { mask: Some(m), ..l }),
        history: spec_push(
            s.history,
            StepView { name, action: ActionView::Mask { layer: a, before: l.mask, after: Some(m) } },
        ),
        dirty: true,
        ..s
    }
}

pub open spec fn locked_notice(s: AppView) -> AppView {
    AppView { notice: Some("Слой заблокирован"@), ..s }
}

/// The editor after `fill_mask(white, frame)`.
pub open spec fn spec_app_fill_mask(s0: AppView, white: bool, frame: Option<(usize, usize, usize, usize)>) -> AppView {
    let s = spec_end_stroke(s0);
    if s.doc.layers[s.doc.active as int].meta.locked {
        locked_notice(s)
    } else {
        let r = mask_ready(s);
        let v: u8 = if white {
            255
        } else {
            0
        };
        with_active_mask(
            r,
            selection_filled(active_mask(r), r.sel_mask, frame, r.doc.width, v),
            if white {
                "Маска: белое"@
            } else {
                "Маска: чёрное"@
            },
        )
    }
}

/// The editor after `invert_mask`.
pub open spec fn spec_app_invert_mask(s0: AppView) -> AppView {
    let s = spec_end_stroke(s0);
    if s.doc.layers[s.doc.active as int].meta.locked {
        locked_notice(s)
    } else {
        let r = mask_ready(s);
        let m = active_mask(r);
        with_active_mask(r, Seq::new(m.len(), |i: int| (255 - m[i]) as u8), "Инверсия маски"@)
    }
}

/// The editor after `add_mask_from_selection(frame)`.
pub open spec fn spec_app_add_mask_from_selection(
    s0: AppView,
    frame: Option<(usize, usize, usize, usize)>,
) -> AppView {
    let s = spec_end_stroke(s0);
    let a = s.doc.active;
    let l = s.doc.layers[a as int];
    let n = s.doc.width * s.doc.height;
    if l.meta.locked {
        locked_notice(s)
    } else {
        let m = match s.sel_mask {
            Some(sm) => sm,
            None => match frame {
                Some(f) => frame_filled(Seq::new(n, |i: int| 0u8), s.doc.width, f, 255),
                None => Seq::new(n, |i: int| 255u8),
            },
        };
        let name = if frame is Some {
            "Маска из выделения"@
        } else {
            "Маска слоя"@
        };
        AppView {
            doc: set_layer(s.doc, a as int, LayerView { mask: Some(m), mask_on: true, ..l }),
            history: spec_push(
                s.history,
                StepView { name, action: ActionView::Mask { layer: a, before: l.mask, after: Some(m) } },
            ),
            edit_mask: true,
            dirty: true,
            notice: Some("Маска добавлена — рисуем по ней белым"@),
            ..s
        }
    }
}

/// The editor after `toggle_mask`.
pub open spec fn spec_app_toggle_mask(s0: AppView) -> AppView {
    let s = spec_end_stroke(s0);
    let a = s.doc.active as int;
    let l = s.doc.layers[a];
    if l.mask is None {
        AppView { notice: Some("У слоя нет маски"@), ..s }
    } else {
        AppView {
            doc: set_layer(s.doc, a, LayerView { mask_on: !l.mask_on, ..l }),
            dirty: true,
            notice: Some(
                if !l.mask_on {
                    "Маска включена"@
                } else {
                    "Маска выключена"@
                },
            ),
            ..s
        }
    }
}

/// The editor after `delete_mask`.
pub open spec fn spec_app_delete_mask(s0: AppView) -> AppView {
    let s = spec_end_stroke(s0);
    let a = s.doc.active;
    let l = s.doc.layers[a as int];
    if l.mask is None {
        AppView { notice: Some("У слоя нет маски"@), ..s }
    } else {
        AppView {
            doc: set_layer(s.doc, a as int, LayerView { mask: None, mask_on: true, ..l }),
            history: spec_push(
                s.history,
                StepView { name: "Удалить маску"@, action: ActionView::Mask { layer: a, before: l.mask, after: None } },
            ),
            edit_mask: false,
            dirty: true,
            notice: Some("Маска удалена"@),
            ..s
        }
    }
}

/// Sets `m[i]` to `v` for every byte `i` in the frame `f`.
pub(crate) fn fill_frame(m: &mut Vec<u8>, w: usize, f: (usize, usize, usize, usize), v: u8)
    requires
        f.2 <= w,
        frame_fits(f, w as nat, old(m)@.len()),
    ensures
        final(m)@ == frame_filled(old(m)@, w as nat, f, v),
{
    let ghost m0 = m@;
    let len = m.len();
    assert(m0.len() <= usize::MAX);
    let (x0, y0, x1, y1) = f;
    if x0 >= x1 || y0 >= y1 {
        assert forall|i: int| 0 <= i < m0.len() implies !in_frame(i, w as nat, f) by {}
        assert(m@ =~= frame_filled(m0, w as nat, f, v));
        return;
    }
    assert((y1 - 1) * w + x1 - 1 < m@.len());
    let mut y = y0;
    while y < y1
        invariant
            x0 < x1 <= w,
            y0 <= y <= y1,
            (y1 - 1) * w + x1 - 1 < m0.len(),
            m0.len() <= usize::MAX,
            m@.len() == m0.len(),
            f == (x0, y0, x1, y1),
            forall|i: int|
                0 <= i < m0.len() ==> #[trigger] m@[i] == if in_frame(i, w as nat, f) && i / (w as int) < y {
                    v
                } else {
                    m0[i]
                },
        decreases y1 - y,
    {
        assert(y * w <= (y1 - 1) * w) by (nonlinear_arith)
            requires
                y <= y1 - 1,
        ;
        let mut x = x0;
        while x < x1
            invariant
                x0 <= x <= x1 <= w,
                y0 <= y < y1,
                y * w + x1 - 1 < m0.len(),
                m0.len() <= usize::MAX,
                m@.len() == m0.len(),
                f == (x0, y0, x1, y1),
                forall|i: int|
                    0 <= i < m0.len() ==> #[trigger] m@[i] == if in_frame(i, w as nat, f) && (i / (w as int) < y || (i
                        / (w as int) == y && i % (w as int) < x)) {
                        v
                    } else {
                        m0[i]
                    },
            decreases x1 - x,
        {
            let k = y * w + x;
            proof {
                vstd::arithmetic::div_mod::lemma_fundamental_div_mod_converse(k as int, w as int, y as int, x as int);
            }
            let ghost before = m@;
            m.set(k, v);
            proof {
                assert forall|i: int| 0 <= i < m0.len() implies #[trigger] m@[i] == if in_frame(i, w as nat, f) && (i
                    / (w as int) < y || (i / (w as int) == y && i % (w as int) < x + 1)) {
                    v
                } else {
                    m0[i]
                } by {
                    vstd::arithmetic::div_mod::lemma_fundamental_div_mod(i, w as int);
                    if i != k {
                        assert(m@[i] == before[i]);
                        if i / (w as int) == y && i % (w as int) == x {
                            assert(i == w * y + x);
                            assert(i == k) by (nonlinear_arith)
                                requires
                                    i == w * y + x,
                                    k == y * w + x,
                            ;
                        }
                    }
                }
            }
            x = x + 1;
        }
        proof {
            assert forall|i: int| 0 <= i < m0.len() implies #[trigger] m@[i] == if in_frame(i, w as nat, f) && i / (
            w as int) < y + 1 {
                v
            } else {
                m0[i]
            } by {}
        }
        y = y + 1;
    }
    assert(m@ =~= frame_filled(m0, w as nat, f, v));
}

/// `n` bytes of value `v`.
pub(crate) fn filled_bytes(n: usize, v: u8) -> (r: Vec<u8>)
    ensures
        r@ == Seq::new(n as nat, |i: int| v),
{
    let mut r: Vec<u8> = Vec::new();
    let mut i: usize = 0;
    while i < n
        invariant
            i <= n,
            r@ == Seq::new(i as nat, |k: int| v),
        decreases n - i,
    {
        r.push(v);
        i = i + 1;
        assert(r@ =~= Seq::new(i as nat, |k: int| v));
    }
    r
}

fn set_all(m: &mut Vec<u8>, v: u8)
    ensures
        final(m)@ == Seq::new(old(m)@.len(), |i: int| v),
{
    let ghost m0 = m@;
    let mut i: usize = 0;
    while i < m.len()
        invariant
            i <= m@.len(),
            m@.len() == m0.len(),
            forall|k: int| 0 <= k < m@.len() ==> #[trigger] m@[k] == if k < i { v } else { m0[k] },
        decreases m@.len() - i,
    {
        m.set(i, v);
        i = i + 1;
    }
    assert(m@ =~= Seq::new(m0.len(), |i: int| v));
}

fn set_where(m: &mut Vec<u8>, sel: &Vec<u8>, v: u8)
    ensures
        final(m)@ == Seq::new(old(m)@.len(), |i: int| if i < sel@.len() && sel@[i] > 8 { v } else { old(m)@[i] }),
{
    let ghost m0 = m@;
    let mut i: usize = 0;
    while i < m.len() && i < sel.len()
        invariant
            i <= m@.len(),
            m@.len() == m0.len(),
            forall|k: int|
                0 <= k < m@.len() ==> #[trigger] m@[k] == if k < i && k < sel@.len() && sel@[k] > 8 {
                    v
                } else {
                    m0[k]
                },
        decreases m@.len() - i,
    {
        if sel[i] > 8 {
            m.set(i, v);
        }
        i = i + 1;
    }
    assert(m@ =~= Seq::new(m0.len(), |i: int| if i < sel@.len() && sel@[i] > 8 { v } else { m0[i] }));
}

pub(crate) fn inverted_bytes(m: &Vec<u8>) -> (r: Vec<u8>)
    ensures
        r@ == Seq::new(m@.len(), |i: int| (255 - m@[i]) as u8),
{
    let mut r: Vec<u8> = Vec::new();
    let mut i: usize = 0;
    while i < m.len()
        invariant
            i <= m@.len(),
            r@ == Seq::new(i as nat, |k: int| (255 - m@[k]) as u8),
        decreases m@.len() - i,
    {
        r.push(255 - m[i]);
        i = i + 1;
        assert(r@ =~= Seq::new(i as nat, |k: int| (255 - m@[k]) as u8));
    }
    r
}

/// Gives layer `i` the mask `m`, leaving it switched on or off as it was.
fn set_mask_only(doc: &mut Document, i: usize, m: Option<Vec<u8>>)
    requires
        old(doc).wf(),
        i < old(doc).layers@.len(),
    ensures
        final(doc).wf(),
        final(doc)@ == set_layer(old(doc)@, i as int, LayerView { mask: opt_bytes_view(m), ..old(doc)@.layers[i as int] }),
        final(doc).rev == old(doc).rev,
{
    let ghost d = doc@;
    let ghost mv = opt_bytes_view(m);
    let mut l = doc.layers.remove(i);
    l.mask = m;
    doc.layers.insert(i, l);
    assert(doc@.layers =~= d.layers.update(i as int, LayerView { mask: mv, ..d.layers[i as int] }));
}

/// The length of the active layer's mask once it is made sure to exist.
pub open spec fn ready_mask_len(s: AppView) -> nat {
    match s.doc.layers[s.doc.active as int].mask {
        Some(m) => m.len(),
        None => s.doc.width * s.doc.height,
    }
}

impl App {
    /// Makes sure the active layer has a mask (a white one when missing);
    /// `false` when the layer is locked.
    fn ensure_mask(&mut self) -> (ok: bool)
        requires
            old(self).wf(),
        ensures
            final(self).wf(),
            ok == !old(self)@.doc.layers[old(self)@.doc.active as int].meta.locked,
            ok ==> final(self)@ == mask_ready(old(self)@),
            !ok ==> final(self)@ == locked_notice(old(self)@),
            final(self).doc.rev == old(self).doc.rev,
    {
        let idx = self.doc.active;
        assert(self@.doc.layers[idx as int] == self.doc.layers@[idx as int]@);
        if self.doc.layers[idx].meta.locked {
            self.notify("Слой заблокирован");
            return false;
        }
        if self.doc.layers[idx].mask.is_none() {
            let n = self.doc.width * self.doc.height;
            let ghost d = self.doc@;
            let mut l = self.doc.layers.remove(idx);
            l.mask = Some(filled_bytes(n, 255));
            l.mask_on = true;
            self.doc.layers.insert(idx, l);
            assert(self.doc@.layers =~= d.layers.update(
                idx as int,
                LayerView { mask: Some(Seq::new(d.width * d.height, |i: int| 255u8)), mask_on: true, ..d.layers[idx as int] },
            ));
            self.edit_mask = true;
        }
        true
    }

    /// Paints the active layer's mask white or black where the selection
    /// is: the selection mask, else the frame `frame`, else everywhere (see
    /// `spec_app_fill_mask`).
    pub fn fill_mask(&mut self, white: bool, frame: Option<(usize, usize, usize, usize)>)
        requires
            old(self).wf(),
            old(self).sel_mask is None ==> (frame matches Some(f) ==> f.2 <= old(self).doc.width && frame_fits(
                f,
                old(self).doc.width as nat,
                ready_mask_len(old(self)@),
            )),
        ensures
            final(self).wf(),
            final(self)@.doc != old(self)@.doc ==> final(self).doc.rev != old(self).doc.rev,
            final(self)@ == spec_app_fill_mask(old(self)@, white, frame),
    {
        self.end_stroke();
        if !self.ensure_mask() {
            return;
        }
        let a = self.doc.active;
        let w = self.doc.width;
        let ghost r = self@;
        let before = copy_opt_bytes(&self.doc.layers[a].mask);
        let v: u8 = if white {
            255
        } else {
            0
        };
        let mut m = match &before {
            Some(b) => copy_bytes(b),
            None => Vec::new(),
        };
        match &self.sel_mask {
            Some(sel) => set_where(&mut m, sel, v),
            None => match frame {
                Some(f) => fill_frame(&mut m, w, f, v),
                None => set_all(&mut m, v),
            },
        }
        assert(m@ =~= selection_filled(active_mask(r), r.sel_mask, frame, r.doc.width, v));
        let name = if white {
            "Маска: белое"
        } else {
            "Маска: чёрное"
        };
        set_mask_only(&mut self.doc, a, Some(copy_bytes(&m)));
        let act = Action::Mask { layer: a, before, after: Some(m) };
        proof {
            lemma_ok_push(r.history, StepView { name: name@, action: act@ });
        }
        self.history.push(name, act);
        self.doc.touch();
        self.dirty = true;
    }

    /// Inverts the active layer's mask (see `spec_app_invert_mask`).
    pub fn invert_mask(&mut self)
        requires
            old(self).wf(),
        ensures
            final(self).wf(),
            final(self)@.doc != old(self)@.doc ==> final(self).doc.rev != old(self).doc.rev,
            final(self)@ == spec_app_invert_mask(old(self)@),
    {
        self.end_stroke();
        if !self.ensure_mask() {
            return;
        }
        let a = self.doc.active;
        let ghost r = self@;
        let before = copy_opt_bytes(&self.doc.layers[a].mask);
        let after = match &before {
            Some(b) => inverted_bytes(b),
            None => Vec::new(),
        };
        assert(after@ =~= Seq::new(active_mask(r).len(), |i: int| (255 - active_mask(r)[i]) as u8));
        set_mask_only(&mut self.doc, a, Some(copy_bytes(&after)));
        let act = Action::Mask { layer: a, before, after: Some(after) };
        proof {
            lemma_ok_push(r.history, StepView { name: "Инверсия маски"@, action: act@ });
        }
        self.history.push("Инверсия маски", act);
        self.doc.touch();
        self.dirty = true;
    }

    /// Switches the active layer's mask off or on, keeping it (see
    /// `spec_app_toggle_mask`).
    pub fn toggle_mask(&mut self)
        requires
            old(self).wf(),
        ensures
            final(self).wf(),
            final(self)@.doc != old(self)@.doc ==> final(self).doc.rev != old(self).doc.rev,
            final(self)@ == spec_app_toggle_mask(old(self)@),
    {
        self.end_stroke();
        let idx = self.doc.active;
        assert(self@.doc.layers[idx as int] == self.doc.layers@[idx as int]@);
        if self.doc.layers[idx].mask.is_none() {
            self.notify("У слоя нет маски");
            return;
        }
        let ghost d = self.doc@;
        let mut l = self.doc.layers.remove(idx);
        l.mask_on = !l.mask_on;
        let on = l.mask_on;
        self.doc.layers.insert(idx, l);
        assert(self.doc@.layers =~= d.layers.update(idx as int, LayerView { mask_on: on, ..d.layers[idx as int] }));
        self.doc.touch();
        self.dirty = true;
        self.notify(
            if on {
                "Маска включена"
            } else {
                "Маска выключена"
            },
        );
    }

    /// Removes the active layer's mask, as a history step (see
    /// `spec_app_delete_mask`).
    pub fn delete_mask(&mut self)
        requires
            old(self).wf(),
        ensures
            final(self).wf(),
            final(self)@.doc != old(self)@.doc ==> final(self).doc.rev != old(self).doc.rev,
            final(self)@ == spec_app_delete_mask(old(self)@),
    {
        self.end_stroke();
        let idx = self.doc.active;
        let ghost h = self.history@;
        let ghost s = self@;
        assert(self@.doc.layers[idx as int] == self.doc.layers@[idx as int]@);
        let before = copy_opt_bytes(&self.doc.layers[idx].mask);
        if before.is_none() {
            self.notify("У слоя нет маски");
            return;
        }
        put_mask(&mut self.doc, idx, None);
        let ghost d = self.doc@;
        assert(self.doc.layers@.len() == d.layers.len());
        assert(idx < self.doc.layers.len());
        let mut l = self.doc.layers.remove(idx);
        l.mask_on = true;
        self.doc.layers.insert(idx, l);
        assert(self.doc@.layers =~= d.layers.update(idx as int, LayerView { mask_on: true, ..d.layers[idx as int] }));
        assert(self.doc@.layers =~= s.doc.layers.update(
            idx as int,
            LayerView { mask: None, mask_on: true, ..s.doc.layers[idx as int] },
        ));
        let act = Action::Mask { layer: idx, before, after: None };
        proof {
            lemma_ok_push(h, StepView { name: "Удалить маску"@, action: act@ });
        }
        self.history.push("Удалить маску", act);
        self.edit_mask = false;
        self.doc.touch();
        self.dirty = true;
        self.notify("Маска удалена");
    }

    /// Strokes go to the mask (`on`) or to the pixels; the mask must exist.
    pub fn set_edit_mask(&mut self, on: bool)
        requires
            old(self).wf(),
        ensures
            final(self).wf(),
            final(self)@.doc != old(self)@.doc ==> final(self).doc.rev != old(self).doc.rev,
            final(self)@ == spec_app_set_edit_mask(old(self)@, on),
    {
        let idx = self.doc.active;
        assert(self@.doc.layers[idx as int] == self.doc.layers@[idx as int]@);
        let present = self.doc.layers[idx].mask.is_some();
        if on && !present {
            self.notify("Сначала добавьте маску");
            return;
        }
        self.edit_mask = on && present;
        self.notify(
            if self.edit_mask {
                "Рисование по маске"
            } else {
                "Рисование по слою"
            },
        );
    }

    /// Gives the active layer a mask made from the selection: the selection
    /// mask, else the frame `frame`, else all white (see
    /// `spec_app_add_mask_from_selection`).
    pub fn add_mask_from_selection(&mut self, frame: Option<(usize, usize, usize, usize)>)
        requires
            old(self).wf(),
            frame matches Some(f) ==> f.2 <= old(self).doc.width && f.3 <= old(self).doc.height,
        ensures
            final(self).wf(),
            final(self)@.doc != old(self)@.doc ==> final(self).doc.rev != old(self).doc.rev,
            final(self)@ == spec_app_add_mask_from_selection(old(self)@, frame),
    {
        self.end_stroke();
        let a = self.doc.active;
        let ghost s = self@;
        assert(self@.doc.layers[a as int] == self.doc.layers@[a as int]@);
        if self.doc.layers[a].meta.locked {
            self.notify("Слой заблокирован");
            return;
        }
        let w = self.doc.width;
        let h = self.doc.height;
        let n = w * h;
        let m = match &self.sel_mask {
            Some(sm) => copy_bytes(sm),
            None => match frame {
                Some(f) => {
                    let mut z = zeros(n);
                    proof {
                        if f.0 < f.2 && f.1 < f.3 {
                            assert((f.3 - 1) * w <= (h - 1) * w) by (nonlinear_arith)
                                requires
                                    f.3 <= h,
                                    f.3 >= 1,
                            ;
                            assert((h - 1) * w + w == h * w) by (nonlinear_arith);
                        }
                    }
                    fill_frame(&mut z, w, f, 255);
                    z
                },
                None => filled_bytes(n, 255),
            },
        };
        let before = copy_opt_bytes(&self.doc.layers[a].mask);
        put_mask(&mut self.doc, a, Some(copy_bytes(&m)));
        let name = if frame.is_some() {
            "Маска из выделения"
        } else {
            "Маска слоя"
        };
        let act = Action::Mask { layer: a, before, after: Some(m) };
        proof {
            lemma_ok_push(s.history, StepView { name: name@, action: act@ });
        }
        self.history.push(name, act);
        self.edit_mask = true;
        self.doc.touch();
        self.dirty = true;
        self.notify("Маска добавлена — рисуем по ней белым");
    }
}

} // verus!
