//! Editing the layer stack: adding, copying, removing, reordering and
//! merging layers, clearing and flipping one, and turning the canvas. Each
//! change is recorded in the history.
use crate::app::{CanvasOp, PathKind};
use crate::doc::{blank_layer, solid, zeros, LayerView, MetaView};
use crate::document::{
    content_frame, decimal_text, push_decimal, shows, spec_crop, spec_flip_layer, spec_mirror, spec_resize, spec_rotate,
    with_pixels, DocView, Document,
};
use crate::editor::{
    copy_bytes, history_ok, lemma_ok_push, merge_layer, merged, put_pixels, set_layer, spec_end_stroke, App,
    AppView,
};
use crate::history::{spec_push, Action, ActionView, History, HistoryView, StepView};
use crate::tools::Tool;
use crate::psd_read::string_from_chars;
use vstd::prelude::*;

verus! {

/// A document of `w`×`h` with one white layer, "Фон".
pub open spec fn white_document(w: nat, h: nat) -> DocView {
    DocView {
        width: w,
        height: h,
        layers: seq![LayerView { pixels: solid(w * h, [255u8, 255u8, 255u8, 255u8]), ..blank_layer(w, h, "Фон"@) }],
        active: 0,
    }
}

/// An empty history that keeps forty steps.
pub open spec fn fresh_history() -> HistoryView {
    HistoryView { steps: Seq::empty(), undone: Seq::empty(), limit: 40 }
}

/// A fresh editor on a white `w`×`h` document: brush, black on white,
/// nothing selected, nothing to save.
pub open spec fn spec_fresh_app(w: nat, h: nat) -> AppView {
    AppView {
        doc: white_document(w, h),
        history: fresh_history(),
        tool: Tool::Brush,
        primary: [0u8, 0u8, 0u8, 255u8],
        secondary: [255u8, 255u8, 255u8, 255u8],
        color_swapped: false,
        drawing: false,
        stroke_base: None,
        mask_base: None,
        edit_mask: false,
        sel_mask: None,
        sel_mask_rev: 0,
        clipboard: None,
        path: None,
        path_kind: PathKind::Image,
        dirty: false,
        notice: None,
        rename: None,
        rename_buf: Seq::empty(),
    }
}

/// "W×H".
pub open spec fn size_text(w: nat, h: nat) -> Seq<char> {
    decimal_text(w) + "×"@ + decimal_text(h)
}

/// The editor after `resize_canvas(w, h)`: the history starts over.
pub open spec fn spec_app_resize_canvas(s0: AppView, w: nat, h: nat) -> AppView {
    let s = spec_end_stroke(s0);
    AppView {
        doc: spec_resize(s.doc, w, h),
        history: fresh_history(),
        notice: Some("Размер холста: "@ + size_text(w, h)),
        ..s
    }
}

/// The editor after `crop_to_selection(sel)`, where `sel` is the frame
/// `(x, y, width, height)` of the selection in canvas pixels.
pub open spec fn spec_app_crop_to_selection(s0: AppView, sel: Option<(usize, usize, usize, usize)>) -> AppView {
    let s = spec_end_stroke(s0);
    match sel {
        None => AppView { notice: Some("Сначала выделите область"@), ..s },
        Some(r) => {
            let d = spec_crop(s.doc, r.0 as nat, r.1 as nat, r.2 as nat, r.3 as nat);
            AppView {
                doc: d,
                history: fresh_history(),
                dirty: true,
                notice: Some("Холст обрезан: "@ + size_text(d.width, d.height)),
                ..s
            }
        },
    }
}

/// The name of a new layer: "Слой" and its number counted from one.
pub open spec fn new_layer_name(n: nat) -> Seq<char> {
    "Слой "@ + decimal_text(n)
}

/// The editor after `add_layer`.
pub open spec fn spec_app_add_layer(s0: AppView) -> AppView {
    let s = spec_end_stroke(s0);
    let n = s.doc.layers.len();
    AppView {
        doc: DocView {
            layers: s.doc.layers.push(blank_layer(s.doc.width, s.doc.height, new_layer_name(n + 1))),
            active: n,
            ..s.doc
        },
        history: spec_push(s.history, StepView { name: "Слой добавлен"@, action: ActionView::LayerAdd { index: n } }),
        notice: Some("Слой добавлен"@),
        ..s
    }
}

/// The editor after `duplicate_layer`.
pub open spec fn spec_app_duplicate_layer(s0: AppView) -> AppView {
    let s = spec_end_stroke(s0);
    let a = s.doc.active;
    let l = s.doc.layers[a as int];
    AppView {
        doc: DocView {
            layers: s.doc.layers.insert(
                (a + 1) as int,
                LayerView { meta: MetaView { name: l.meta.name + " копия"@, ..l.meta }, ..l },
            ),
            active: a + 1,
            ..s.doc
        },
        history: spec_push(
            s.history,
            StepView { name: "Слой продублирован"@, action: ActionView::LayerAdd { index: a + 1 } },
        ),
        notice: Some("Слой продублирован"@),
        ..s
    }
}

/// The editor after `delete_layer`: the last layer stays.
pub open spec fn spec_app_delete_layer(s0: AppView) -> AppView {
    let s = spec_end_stroke(s0);
    let a = s.doc.active;
    let n = s.doc.layers.len();
    if n <= 1 {
        s
    } else {
        AppView {
            doc: DocView {
                layers: s.doc.layers.remove(a as int),
                active: if a >= n - 1 {
                    (n - 2) as nat
                } else {
                    a
                },
                ..s.doc
            },
            history: spec_push(
                s.history,
                StepView {
                    name: "Слой удалён"@,
                    action: ActionView::LayerDelete { index: a, layer: s.doc.layers[a as int] },
                },
            ),
            notice: Some("Слой удалён"@),
            ..s
        }
    }
}

/// The editor after `move_layer(to)`.
pub open spec fn spec_app_move_layer(s: AppView, to: nat) -> AppView {
    let from = s.doc.active;
    let n = s.doc.layers.len();
    if from == to {
        s
    } else {
        AppView {
            doc: if to >= n {
                s.doc
            } else {
                DocView {
                    layers: s.doc.layers.remove(from as int).insert(to as int, s.doc.layers[from as int]),
                    active: to,
                    ..s.doc
                }
            },
            history: spec_push(
                s.history,
                StepView { name: "Порядок слоёв"@, action: ActionView::LayerMove { from, to } },
            ),
            notice: Some("Порядок слоёв изменён"@),
            ..s
        }
    }
}

/// The editor after `merge_down`: the active layer is painted onto the one
/// under it and removed.
pub open spec fn spec_app_merge_down(s0: AppView) -> AppView {
    let s = spec_end_stroke(s0);
    let a = s.doc.active;
    let n = s.doc.layers.len();
    if a == 0 || n < 2 {
        s
    } else {
        let u = (a - 1) as nat;
        let top = s.doc.layers[a as int];
        let under = s.doc.layers[u as int];
        AppView {
            doc: DocView {
                layers: s.doc.layers.update(u as int, with_pixels(under, merged(under.pixels, top.pixels))).remove(
                    a as int,
                ),
                active: u,
                ..s.doc
            },
            history: spec_push(
                s.history,
                StepView {
                    name: "Слои объединены"@,
                    action: ActionView::Merge { top_index: a, top, under_index: u, under_before: under.pixels },
                },
            ),
            notice: Some("Слои объединены"@),
            ..s
        }
    }
}

/// The editor after `clear_layer`: the active layer becomes transparent.
pub open spec fn spec_app_clear_layer(s0: AppView) -> AppView {
    let s = spec_end_stroke(s0);
    let a = s.doc.active;
    let l = s.doc.layers[a as int];
    let cleared = Seq::new(l.pixels.len(), |i: int| 0u8);
    AppView {
        doc: set_layer(s.doc, a as int, with_pixels(l, cleared)),
        history: spec_push(
            s.history,
            StepView {
                name: "Слой очищен"@,
                action: ActionView::Pixels { layer: a, before: l.pixels, after: cleared },
            },
        ),
        dirty: true,
        notice: Some("Слой очищен"@),
        ..s
    }
}

pub open spec fn flip_name(horizontal: bool) -> Seq<char> {
    if horizontal {
        "Слой отражён по горизонтали"@
    } else {
        "Слой отражён по вертикали"@
    }
}

/// The editor after `flip_layer(horizontal)`.
pub open spec fn spec_app_flip_layer(s0: AppView, horizontal: bool) -> AppView {
    let s = spec_end_stroke(s0);
    let a = s.doc.active;
    let d = spec_flip_layer(s.doc, a as int, horizontal);
    AppView {
        doc: d,
        history: spec_push(
            s.history,
            StepView {
                name: flip_name(horizontal),
                action: ActionView::Pixels {
                    layer: a,
                    before: s.doc.layers[a as int].pixels,
                    after: d.layers[a as int].pixels,
                },
            },
        ),
        dirty: true,
        notice: Some(flip_name(horizontal)),
        ..s
    }
}

/// The canvas after `op`.
pub open spec fn canvas_after(d: DocView, op: CanvasOp) -> DocView {
    match op {
        CanvasOp::Rotate90 => spec_rotate(d, 1),
        CanvasOp::Rotate270 => spec_rotate(d, 3),
        CanvasOp::Rotate180 => spec_rotate(d, 2),
        CanvasOp::MirrorH => spec_mirror(d, true),
        CanvasOp::MirrorV => spec_mirror(d, false),
    }
}

pub open spec fn canvas_op_name(op: CanvasOp) -> Seq<char> {
    match op {
        CanvasOp::Rotate90 => "Поворот холста 90°"@,
        CanvasOp::Rotate180 => "Поворот холста 180°"@,
        CanvasOp::Rotate270 => "Поворот холста 270°"@,
        CanvasOp::MirrorH => "Холст слева направо"@,
        CanvasOp::MirrorV => "Холст сверху вниз"@,
    }
}

/// The history with only its last two steps kept (whole-document steps are
/// large).
pub open spec fn keep_last_two(h: HistoryView) -> HistoryView {
    if h.steps.len() > 2 {
        HistoryView { steps: h.steps.subrange(h.steps.len() - 2, h.steps.len() as int), ..h }
    } else {
        h
    }
}

/// The editor after `transform_canvas(op)`.
pub open spec fn spec_app_transform_canvas(s0: AppView, op: CanvasOp) -> AppView {
    let s = spec_end_stroke(s0);
    let d = canvas_after(s.doc, op);
    AppView {
        doc: d,
        history: spec_push(
            keep_last_two(s.history),
            StepView { name: canvas_op_name(op), action: ActionView::Document { before: s.doc, after: d } },
        ),
        dirty: true,
        notice: Some("Холст изменён"@),
        ..s
    }
}

fn keep_last_two_steps(h: &mut History)
    requires
        history_ok(old(h)@),
    ensures
        final(h)@ == keep_last_two(old(h)@),
        history_ok(final(h)@),
{
    let ghost h0 = h@;
    while h.steps.len() > 2
        invariant
            h0.steps.len() >= h@.steps.len(),
            h@.steps.len() >= 2 || h@.steps.len() == h0.steps.len(),
            h@.steps == h0.steps.subrange(h0.steps.len() - h@.steps.len(), h0.steps.len() as int),
            h@.undone == h0.undone,
            h@.limit == h0.limit,
        decreases h.steps@.len(),
    {
        let ghost before = h@.steps;
        h.steps.remove(0);
        assert(h@.steps =~= before.drop_first());
        assert(h@.steps =~= h0.steps.subrange(h0.steps.len() - h@.steps.len(), h0.steps.len() as int));
    }
    proof {
        if h0.steps.len() <= 2 {
            assert(h@.steps =~= h0.steps);
        }
    }
    assert(h@ == keep_last_two(h0));
    assert forall|i: int| 0 <= i < h@.steps.len() implies crate::editor::action_ok(#[trigger] h@.steps[i].action) by {
        assert(h@.steps[i] == h0.steps[h0.steps.len() - h@.steps.len() + i]);
    }
}

/// The decimal digits of `n`.
pub(crate) fn decimal_string(n: usize) -> (s: String)
    ensures
        s@ == decimal_text(n as nat),
{
    let mut digits: Vec<char> = Vec::new();
    push_decimal(&mut digits, n);
    string_from_chars(digits.as_slice())
}

pub(crate) fn size_string(w: usize, h: usize) -> (s: String)
    ensures
        s@ == size_text(w as nat, h as nat),
{
    let mut s = decimal_string(w);
    s.append("×");
    s.append(decimal_string(h).as_str());
    s
}

impl App {
    fn fresh(w: usize, h: usize) -> (a: Self)
        requires
            w * h * 4 <= usize::MAX,
        ensures
            a.wf(),
            a@ == spec_fresh_app(w as nat, h as nat),
    {
        let mut doc = Document::new(w, h);
        assert(doc@.layers.len() == 1);
        let ghost l0 = doc@.layers[0];
        let mut l = doc.layers.remove(0);
        assert(l@ == l0);
        l.fill([255, 255, 255, 255]);
        let ghost p = l.pixels@;
        assert(p =~= solid((w * h) as nat, [255u8, 255u8, 255u8, 255u8])) by {
            assert(p.len() == w * h * 4);
            assert(p.len() / 4 * 4 == p.len());
        }
        doc.layers.insert(0, l);
        doc.touch();
        assert(doc@.layers =~= white_document(w as nat, h as nat).layers);
        let a = App {
            doc,
            history: History::new(40),
            tool: Tool::Brush,
            primary: [0, 0, 0, 255],
            secondary: [255, 255, 255, 255],
            color_swapped: false,
            drawing: false,
            stroke_base: None,
            mask_base: None,
            edit_mask: false,
            sel_mask: None,
            sel_mask_rev: 0,
            clipboard: None,
            path: None,
            path_kind: PathKind::Image,
            dirty: false,
            notice: None,
            rename: None,
            rename_buf: String::new(),
        };
        assert(a@.rename_buf =~= Seq::<char>::empty());
        a
    }

    /// A fresh editor on a white 1600×1000 document.
    pub fn new() -> (a: Self)
        ensures
            a.wf(),
            a@ == spec_fresh_app(1600, 1000),
    {
        App::fresh(1600, 1000)
    }

    /// Starts over on a white `w`×`h` document.
    pub fn new_document(&mut self, w: usize, h: usize)
        requires
            w * h * 4 <= usize::MAX,
        ensures
            final(self).wf(),
            final(self)@ == (AppView { notice: Some("Новый документ"@), ..spec_fresh_app(w as nat, h as nat) }),
    {
        *self = App::fresh(w, h);
        self.notify("Новый документ");
    }

    /// Gives the canvas the size `w`×`h`, keeping the content at the top
    /// left (see `spec_app_resize_canvas`).
    pub fn resize_canvas(&mut self, w: usize, h: usize)
        requires
            old(self).wf(),
            w * h * 4 <= usize::MAX,
        ensures
            final(self).wf(),
            final(self)@.doc != old(self)@.doc ==> final(self).doc.rev != old(self).doc.rev,
            final(self)@ == spec_app_resize_canvas(old(self)@, w as nat, h as nat),
    {
        self.end_stroke();
        self.doc.resize(w, h);
        assert(self.doc@.layers.len() > 0);
        self.history = History::new(40);
        let mut m = "Размер холста: ".to_owned();
        m.append(size_string(w, h).as_str());
        self.notice = Some(m);
    }

    /// Cuts the canvas to the selection frame `sel`, given as
    /// `(x, y, width, height)` in canvas pixels (see
    /// `spec_app_crop_to_selection`).
    pub fn crop_to_selection(&mut self, sel: Option<(usize, usize, usize, usize)>)
        requires
            old(self).wf(),
            sel matches Some(r) ==> r.0 < old(self).doc.width && r.1 < old(self).doc.height,
        ensures
            final(self).wf(),
            final(self)@.doc != old(self)@.doc ==> final(self).doc.rev != old(self).doc.rev,
            final(self)@ == spec_app_crop_to_selection(old(self)@, sel),
    {
        self.end_stroke();
        match sel {
            None => {
                self.notify("Сначала выделите область");
            },
            Some(r) => {
                self.doc.crop(r.0, r.1, r.2, r.3);
                assert(self.doc@.layers.len() > 0);
                self.history = History::new(40);
                self.dirty = true;
                let mut m = "Холст обрезан: ".to_owned();
                m.append(size_string(self.doc.width, self.doc.height).as_str());
                self.notice = Some(m);
            },
        }
    }

    /// Cuts away the empty margins around what shows; an empty canvas stays
    /// as it is.
    pub fn trim_canvas(&mut self)
        requires
            old(self).wf(),
        ensures
            final(self).wf(),
            final(self)@.doc != old(self)@.doc ==> final(self).doc.rev != old(self).doc.rev,
            ({
                let s = spec_end_stroke(old(self)@);
                if !(exists|x: int, y: int| shows(s.doc, x, y)) {
                    final(self)@ == AppView { notice: Some("Холст пустой — нечего обрезать"@), ..s }
                } else {
                    exists|x0: nat, y0: nat, w: nat, h: nat|
                        #![trigger content_frame(s.doc, x0 as int, y0 as int, (x0 + w) as int, (y0 + h) as int)]
                        content_frame(s.doc, x0 as int, y0 as int, (x0 + w) as int, (y0 + h) as int) && final(self)@ == AppView {
                            doc: spec_crop(s.doc, x0, y0, w, h),
                            history: fresh_history(),
                            dirty: true,
                            notice: Some("Поля обрезаны: "@ + size_text(w, h)),
                            ..s
                        }
                }
            }),
    {
        self.end_stroke();
        let ghost s = self@;
        match self.doc.content_bounds() {
            Some(b) => {
                let (x, y, w, h) = b;
                proof {
                    assert(content_frame(s.doc, x as int, y as int, x + w, y + h));
                    let yy = choose|yy: int| #[trigger] shows(s.doc, x as int, yy);
                    let xx = choose|xx: int| #[trigger] shows(s.doc, xx, y as int);
                    assert(shows(s.doc, x as int, yy));
                    assert(shows(s.doc, xx, y as int));
                }
                self.doc.crop(x, y, w, h);
                assert(self.doc@.layers.len() > 0);
                self.history = History::new(40);
                self.dirty = true;
                let mut m = "Поля обрезаны: ".to_owned();
                m.append(size_string(w, h).as_str());
                self.notice = Some(m);
                proof {
                    let x0 = x as nat;
                    let y0 = y as nat;
                    let w0 = w as nat;
                    let h0 = h as nat;
                    assert(content_frame(s.doc, x0 as int, y0 as int, (x0 + w0) as int, (y0 + h0) as int));
                    assert(self@ == AppView {
                        doc: spec_crop(s.doc, x0, y0, w0, h0),
                        history: fresh_history(),
                        dirty: true,
                        notice: Some("Поля обрезаны: "@ + size_text(w0, h0)),
                        ..s
                    });
                }
            },
            None => {
                self.notify("Холст пустой — нечего обрезать");
            },
        }
    }

    /// Adds a transparent layer on top, named by its number, and makes it
    /// active (see `spec_app_add_layer`).
    pub fn add_layer(&mut self)
        requires
            old(self).wf(),
            old(self).doc.layers@.len() + 1 < usize::MAX,
        ensures
            final(self).wf(),
            final(self)@.doc != old(self)@.doc ==> final(self).doc.rev != old(self).doc.rev,
            final(self)@ == spec_app_add_layer(old(self)@),
    {
        self.end_stroke();
        let n = self.doc.layers.len() + 1;
        let mut digits: Vec<char> = Vec::new();
        push_decimal(&mut digits, n);
        let mut name = "Слой ".to_owned();
        name.append(string_from_chars(digits.as_slice()).as_str());
        let ghost h = self.history@;
        let i = self.doc.add_layer(name.as_str());
        let act = Action::LayerAdd { index: i };
        proof {
            lemma_ok_push(h, StepView { name: "Слой добавлен"@, action: act@ });
        }
        self.history.push("Слой добавлен", act);
        self.doc.touch();
        self.notify("Слой добавлен");
    }

    /// Puts a copy of the active layer above it and makes the copy active
    /// (see `spec_app_duplicate_layer`); undoing it removes the copy.
    pub fn duplicate_layer(&mut self)
        requires
            old(self).wf(),
            old(self).doc.layers@.len() + 1 < usize::MAX,
        ensures
            final(self).wf(),
            final(self)@.doc != old(self)@.doc ==> final(self).doc.rev != old(self).doc.rev,
            final(self)@ == spec_app_duplicate_layer(old(self)@),
    {
        self.end_stroke();
        let a = self.doc.active;
        let ghost h = self.history@;
        let i = self.doc.duplicate_layer(a);
        assert(self.doc@.layers.len() > 0);
        let act = Action::LayerAdd { index: i };
        proof {
            lemma_ok_push(h, StepView { name: "Слой продублирован"@, action: act@ });
        }
        self.history.push("Слой продублирован", act);
        self.doc.touch();
        self.notify("Слой продублирован");
    }

    /// Removes the active layer unless it is the last one (see
    /// `spec_app_delete_layer`).
    pub fn delete_layer(&mut self)
        requires
            old(self).wf(),
        ensures
            final(self).wf(),
            final(self)@.doc != old(self)@.doc ==> final(self).doc.rev != old(self).doc.rev,
            final(self)@ == spec_app_delete_layer(old(self)@),
    {
        self.end_stroke();
        let a = self.doc.active;
        let ghost h = self.history@;
        match self.doc.delete_layer(a) {
            Some(l) => {
                let act = Action::LayerDelete { index: a, layer: Box::new(l) };
                proof {
                    lemma_ok_push(h, StepView { name: "Слой удалён"@, action: act@ });
                }
                self.history.push("Слой удалён", act);
                self.doc.touch();
                self.notify("Слой удалён");
            },
            None => {},
        }
    }

    /// Moves the active layer to position `to` (see `spec_app_move_layer`).
    pub fn move_layer(&mut self, to: usize)
        requires
            old(self).wf(),
        ensures
            final(self).wf(),
            final(self)@.doc != old(self)@.doc ==> final(self).doc.rev != old(self).doc.rev,
            final(self)@ == spec_app_move_layer(old(self)@, to as nat),
    {
        let from = self.doc.active;
        if from == to {
            return;
        }
        let ghost h = self.history@;
        self.doc.move_layer(from, to);
        let act = Action::LayerMove { from, to };
        proof {
            lemma_ok_push(h, StepView { name: "Порядок слоёв"@, action: act@ });
        }
        self.history.push("Порядок слоёв", act);
        self.notify("Порядок слоёв изменён");
    }

    /// Paints the active layer onto the one under it and removes it (see
    /// `spec_app_merge_down`); undoing brings both back.
    pub fn merge_down(&mut self)
        requires
            old(self).wf(),
        ensures
            final(self).wf(),
            final(self)@.doc != old(self)@.doc ==> final(self).doc.rev != old(self).doc.rev,
            final(self)@ == spec_app_merge_down(old(self)@),
    {
        self.end_stroke();
        let a = self.doc.active;
        if a == 0 || self.doc.layers.len() < 2 {
            return;
        }
        let u = a - 1;
        let ghost d = self.doc@;
        let ghost h = self.history@;
        let top = self.doc.layers.remove(a);
        self.doc.active = u;
        assert(self.doc@.layers =~= d.layers.remove(a as int));
        let under_before = copy_bytes(&self.doc.layers[u].pixels);
        assert(top@ == d.layers[a as int]);
        merge_layer(&mut self.doc, u, &top.pixels);
        assert(self.doc@.layers =~= d.layers.update(
            u as int,
            with_pixels(d.layers[u as int], merged(d.layers[u as int].pixels, d.layers[a as int].pixels)),
        ).remove(a as int));
        let act = Action::Merge { top_index: a, top: Box::new(top), under_index: u, under_before };
        proof {
            lemma_ok_push(h, StepView { name: "Слои объединены"@, action: act@ });
        }
        self.history.push("Слои объединены", act);
        self.doc.touch();
        self.notify("Слои объединены");
    }

    /// Makes layer `i` active (held to the last layer); painting on the
    /// mask stops when the new layer has none.
    pub fn select_layer(&mut self, i: usize)
        requires
            old(self).wf(),
        ensures
            final(self).wf(),
            final(self)@ == ({
                let n = old(self)@.doc.layers.len();
                let a = if i < n {
                    i as nat
                } else {
                    (n - 1) as nat
                };
                AppView {
                    doc: DocView { active: a, ..old(self)@.doc },
                    edit_mask: if old(self)@.doc.layers[a as int].mask is None {
                        false
                    } else {
                        old(self)@.edit_mask
                    },
                    ..old(self)@
                }
            }),
    {
        let last = self.doc.layers.len() - 1;
        self.doc.active = if i < last {
            i
        } else {
            last
        };
        if self.doc.layers[self.doc.active].mask.is_none() {
            self.edit_mask = false;
        }
    }

    /// Makes the active layer transparent (see `spec_app_clear_layer`).
    pub fn clear_layer(&mut self)
        requires
            old(self).wf(),
        ensures
            final(self).wf(),
            final(self)@.doc != old(self)@.doc ==> final(self).doc.rev != old(self).doc.rev,
            final(self)@ == spec_app_clear_layer(old(self)@),
    {
        self.end_stroke();
        let a = self.doc.active;
        let ghost h = self.history@;
        let before = copy_bytes(&self.doc.layers[a].pixels);
        let after = zeros(before.len());
        put_pixels(&mut self.doc, a, copy_bytes(&after));
        let act = Action::Pixels { layer: a, before, after };
        proof {
            lemma_ok_push(h, StepView { name: "Слой очищен"@, action: act@ });
        }
        self.history.push("Слой очищен", act);
        self.doc.touch();
        self.dirty = true;
        self.notify("Слой очищен");
    }

    /// Mirrors the active layer (see `spec_app_flip_layer`).
    pub fn flip_layer(&mut self, horizontal: bool)
        requires
            old(self).wf(),
        ensures
            final(self).wf(),
            final(self)@.doc != old(self)@.doc ==> final(self).doc.rev != old(self).doc.rev,
            final(self)@ == spec_app_flip_layer(old(self)@, horizontal),
    {
        self.end_stroke();
        let i = self.doc.active;
        let ghost h = self.history@;
        let before = copy_bytes(&self.doc.layers[i].pixels);
        self.doc.flip_layer(i, horizontal);
        let after = copy_bytes(&self.doc.layers[i].pixels);
        let name = if horizontal {
            "Слой отражён по горизонтали"
        } else {
            "Слой отражён по вертикали"
        };
        let act = Action::Pixels { layer: i, before, after };
        proof {
            lemma_ok_push(h, StepView { name: name@, action: act@ });
        }
        self.history.push(name, act);
        self.dirty = true;
        self.notify(name);
    }

    /// Turns or mirrors the whole canvas (see `spec_app_transform_canvas`);
    /// the history keeps two earlier steps besides this one.
    pub fn transform_canvas(&mut self, op: CanvasOp)
        requires
            old(self).wf(),
        ensures
            final(self).wf(),
            final(self)@.doc != old(self)@.doc ==> final(self).doc.rev != old(self).doc.rev,
            final(self)@ == spec_app_transform_canvas(old(self)@, op),
    {
        self.end_stroke();
        let before = self.doc.copy();
        match op {
            CanvasOp::Rotate90 => self.doc.rotate(1),
            CanvasOp::Rotate270 => self.doc.rotate(3),
            CanvasOp::Rotate180 => self.doc.rotate(2),
            CanvasOp::MirrorH => self.doc.mirror(true),
            CanvasOp::MirrorV => self.doc.mirror(false),
        }
        assert(self.doc@.layers.len() == before@.layers.len());
        let after = self.doc.copy();
        keep_last_two_steps(&mut self.history);
        let ghost h = self.history@;
        let name = match op {
            CanvasOp::Rotate90 => "Поворот холста 90°",
            CanvasOp::Rotate180 => "Поворот холста 180°",
            CanvasOp::Rotate270 => "Поворот холста 270°",
            CanvasOp::MirrorH => "Холст слева направо",
            CanvasOp::MirrorV => "Холст сверху вниз",
        };
        let act = Action::Document { before: Box::new(before), after: Box::new(after) };
        proof {
            lemma_ok_push(h, StepView { name: name@, action: act@ });
        }
        self.history.push(name, act);
        self.dirty = true;
        self.notify("Холст изменён");
    }
}

} // verus!
