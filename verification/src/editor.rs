//! The editor's document state: the document with its undo history, the
//! colours, the stroke in progress, the layer masks, folders and the
//! selection mask. The view (zoom, pan), the pointer positions and the
//! selection frame are floating point and live with the window.
use crate::app::PathKind;
use crate::doc::{blank_layer, opt_bytes_view, spec_over, Layer, LayerView};
use crate::document::{bumped, layers_sized, min_nat, with_pixels, DocView, Document};
use crate::history::{
    back_steps, back_to, fwd_steps, fwd_to, move_view, spec_push, spec_redo, spec_undo, Action, ActionView,
    History, HistoryView, Step, StepView,
};
use crate::tools::spec_tool_name;
use crate::raster::RectData;
use crate::tools::Tool;
use vstd::prelude::*;

verus! {

/// A document of at least one layer whose layers all have the canvas size
/// and whose active layer exists.
pub open spec fn docview_wf(d: DocView) -> bool {
    &&& d.width * d.height * 4 <= usize::MAX
    &&& layers_sized(d.layers, (d.width * d.height * 4) as int)
    &&& d.layers.len() > 0
    &&& d.active < d.layers.len()
}

/// An action that can be replayed without breaking a document: the whole
/// documents it holds are well formed.
pub open spec fn action_ok(a: ActionView) -> bool {
    match a {
        ActionView::Document { before, after } => docview_wf(before) && docview_wf(after),
        _ => true,
    }
}

/// Every step of the history, done or undone, holds a replayable action.
pub open spec fn history_ok(h: HistoryView) -> bool {
    &&& forall|i: int| 0 <= i < h.steps.len() ==> action_ok(#[trigger] h.steps[i].action)
    &&& forall|i: int| 0 <= i < h.undone.len() ==> action_ok(#[trigger] h.undone[i].action)
}

/// `d` with layer `i` replaced by `l`.
pub open spec fn set_layer(d: DocView, i: int, l: LayerView) -> DocView {
    DocView { layers: d.layers.update(i, l), ..d }
}

/// Byte `k` of layer `under` after `top` is painted over it pixel by pixel;
/// fully transparent pixels of `top` leave `under` as it is.
pub open spec fn merged_byte(under: Seq<u8>, top: Seq<u8>, k: int) -> u8 {
    let i = k / 4;
    let c = [top[i * 4], top[i * 4 + 1], top[i * 4 + 2], top[i * 4 + 3]];
    if c[3] == 0 {
        under[k]
    } else {
        spec_over([under[i * 4], under[i * 4 + 1], under[i * 4 + 2], under[i * 4 + 3]], c)[k % 4]
    }
}

/// Layer `under` with `top` painted over it.
pub open spec fn merged(under: Seq<u8>, top: Seq<u8>) -> Seq<u8> {
    Seq::new(under.len(), |k: int| merged_byte(under, top, k))
}

/// The mask of a layer set to `m`; a mask put back is switched on.
pub open spec fn with_mask(l: LayerView, m: Option<Seq<u8>>) -> LayerView {
    LayerView {
        mask: m,
        mask_on: if m is Some {
            true
        } else {
            l.mask_on
        },
        ..l
    }
}

/// The document with action `a` taken back. Data of a layer that does not
/// fit the canvas is not put in, and the last layer is never taken out.
pub open spec fn spec_apply_inverse(d: DocView, a: ActionView) -> DocView {
    let n = d.layers.len();
    match a {
        ActionView::Pixels { layer, before, after } => if layer < n && d.layers[layer as int].pixels.len()
            == before.len() {
            set_layer(d, layer as int, with_pixels(d.layers[layer as int], before))
        } else {
            d
        },
        ActionView::LayerAdd { index } => if index < n && n > 1 {
            DocView { layers: d.layers.remove(index as int), active: min_nat(d.active, (n - 2) as nat), ..d }
        } else {
            d
        },
        ActionView::LayerDelete { index, layer } => if layer.pixels.len() == d.width * d.height * 4 {
            let idx = min_nat(index, n);
            DocView { layers: d.layers.insert(idx as int, layer), active: idx, ..d }
        } else {
            d
        },
        ActionView::LayerMove { from, to } => d,
        ActionView::LayerMeta { index, before, after } => if index < n {
            set_layer(d, index as int, LayerView { meta: before, ..d.layers[index as int] })
        } else {
            d
        },
        ActionView::Mask { layer, before, after } => if layer < n {
            set_layer(d, layer as int, with_mask(d.layers[layer as int], before))
        } else {
            d
        },
        ActionView::Merge { top_index, top, under_index, under_before } => if top.pixels.len() == d.width
            * d.height * 4 {
            let idx = min_nat(top_index, n);
            let ls = d.layers.insert(idx as int, top);
            DocView {
                layers: if under_index < ls.len() && ls[under_index as int].pixels.len() == under_before.len() {
                    ls.update(under_index as int, with_pixels(ls[under_index as int], under_before))
                } else {
                    ls
                },
                active: idx,
                ..d
            }
        } else {
            d
        },
        ActionView::Document { before, after } => before,
    }
}

/// The document with action `a` done again. Data of a layer that does not
/// fit the canvas is not painted, and the last layer is never taken out.
pub open spec fn spec_apply_forward(d: DocView, a: ActionView) -> DocView {
    let n = d.layers.len();
    match a {
        ActionView::Pixels { layer, before, after } => if layer < n && d.layers[layer as int].pixels.len()
            == after.len() {
            set_layer(d, layer as int, with_pixels(d.layers[layer as int], after))
        } else {
            d
        },
        ActionView::LayerAdd { index } => {
            let idx = min_nat(index, n);
            DocView {
                layers: d.layers.insert(idx as int, blank_layer(d.width, d.height, "Слой"@)),
                active: idx,
                ..d
            }
        },
        ActionView::LayerDelete { index, layer } => if index < n && n > 1 {
            DocView { layers: d.layers.remove(index as int), active: min_nat(d.active, (n - 2) as nat), ..d }
        } else {
            d
        },
        ActionView::LayerMove { from, to } => d,
        ActionView::LayerMeta { index, before, after } => if index < n {
            set_layer(d, index as int, LayerView { meta: after, ..d.layers[index as int] })
        } else {
            d
        },
        ActionView::Mask { layer, before, after } => if layer < n {
            set_layer(d, layer as int, with_mask(d.layers[layer as int], after))
        } else {
            d
        },
        ActionView::Merge { top_index, top, under_index, under_before } => {
            let ls = if under_index < n && top.pixels.len() == d.width * d.height * 4 {
                d.layers.update(
                    under_index as int,
                    with_pixels(d.layers[under_index as int], merged(d.layers[under_index as int].pixels, top.pixels)),
                )
            } else {
                d.layers
            };
            let ls2 = if top_index < n && n > 1 {
                ls.remove(top_index as int)
            } else {
                ls
            };
            DocView { layers: ls2, active: min_nat(under_index, (ls2.len() - 1) as nat), ..d }
        },
        ActionView::Document { before, after } => after,
    }
}

/// The document with one step of the history applied: forwards when the
/// flag is set, backwards otherwise.
pub open spec fn apply_move(d: DocView, m: (StepView, bool)) -> DocView {
    if m.1 {
        spec_apply_forward(d, m.0.action)
    } else {
        spec_apply_inverse(d, m.0.action)
    }
}

/// The document with the steps `ms` applied in order.
pub open spec fn apply_moves(d: DocView, ms: Seq<(StepView, bool)>) -> DocView
    decreases ms.len(),
{
    if ms.len() == 0 {
        d
    } else {
        apply_move(apply_moves(d, ms.drop_last()), ms.last())
    }
}

/// The history step a stroke is recorded under.
pub open spec fn stroke_name(t: Tool, on_mask: bool) -> Seq<char> {
    if on_mask {
        if t == Tool::Eraser {
            "Ластик по маске"@
        } else {
            "Кисть по маске"@
        }
    } else {
        spec_tool_name(t)
    }
}

/// The editor after the stroke in progress ends: a stroke that changed the
/// mask or the pixels of the active layer becomes a history step.
pub open spec fn spec_end_stroke(s: AppView) -> AppView {
    if !s.drawing {
        s
    } else {
        let a = s.doc.active as int;
        match s.mask_base {
            Some(before) => {
                let after = s.doc.layers[a].mask;
                AppView {
                    drawing: false,
                    mask_base: None,
                    history: if Some(before) != after {
                        spec_push(
                            s.history,
                            StepView {
                                name: stroke_name(s.tool, true),
                                action: ActionView::Mask { layer: s.doc.active, before: Some(before), after },
                            },
                        )
                    } else {
                        s.history
                    },
                    ..s
                }
            },
            None => match s.stroke_base {
                Some(before) => {
                    let after = s.doc.layers[a].pixels;
                    AppView {
                        drawing: false,
                        stroke_base: None,
                        history: if before != after {
                            spec_push(
                                s.history,
                                StepView {
                                    name: stroke_name(s.tool, false),
                                    action: ActionView::Pixels { layer: s.doc.active, before, after },
                                },
                            )
                        } else {
                            s.history
                        },
                        ..s
                    }
                },
                None => AppView { drawing: false, ..s },
            },
        }
    }
}

/// The editor after `undo` (see `App::undo`).
pub open spec fn spec_app_undo(s0: AppView) -> AppView {
    let s = spec_end_stroke(s0);
    if s.history.steps.len() == 0 {
        s
    } else {
        let st = s.history.steps.last();
        AppView {
            doc: spec_apply_inverse(s.doc, st.action),
            history: spec_undo(s.history),
            dirty: true,
            notice: Some("Отменено: "@ + st.name),
            ..s
        }
    }
}

/// The editor after `redo` (see `App::redo`).
pub open spec fn spec_app_redo(s0: AppView) -> AppView {
    let s = spec_end_stroke(s0);
    if s.history.undone.len() == 0 {
        s
    } else {
        let st = s.history.undone.last();
        AppView {
            doc: spec_apply_forward(s.doc, st.action),
            history: spec_redo(s.history),
            dirty: true,
            notice: Some("Повторено: "@ + st.name),
            ..s
        }
    }
}

/// The steps a jump of the history to `target` applies, in order.
pub open spec fn goto_moves(h: HistoryView, target: nat) -> Seq<(StepView, bool)> {
    back_steps(h, target) + fwd_steps(back_to(h, target), target)
}

/// The editor after `history_goto(target)` (see `App::history_goto`).
pub open spec fn spec_app_goto(s0: AppView, target: nat) -> AppView {
    let s = spec_end_stroke(s0);
    let ms = goto_moves(s.history, target);
    let h = fwd_to(back_to(s.history, target), target);
    if ms.len() == 0 {
        AppView { history: h, ..s }
    } else {
        AppView {
            doc: apply_moves(s.doc, ms),
            history: h,
            dirty: true,
            notice: Some("История: "@ + ms.last().0.name),
            ..s
        }
    }
}

pub(crate) proof fn lemma_ok_push(h: HistoryView, st: StepView)
    requires
        history_ok(h),
        action_ok(st.action),
    ensures
        history_ok(spec_push(h, st)),
{
    let p = spec_push(h, st);
    if h.limit != 0 {
        let steps = h.steps.push(st);
        assert forall|i: int| 0 <= i < p.steps.len() implies action_ok(#[trigger] p.steps[i].action) by {
            if steps.len() > h.limit {
                assert(p.steps[i] == steps[i + 1]);
            }
        }
    }
}

proof fn lemma_ok_undo(h: HistoryView)
    requires
        history_ok(h),
    ensures
        history_ok(spec_undo(h)),
{
    let u = spec_undo(h);
    if h.steps.len() > 0 {
        assert forall|i: int| 0 <= i < u.undone.len() implies action_ok(#[trigger] u.undone[i].action) by {
            if i == h.undone.len() {
                assert(u.undone[i] == h.steps[h.steps.len() - 1]);
            }
        }
        assert forall|i: int| 0 <= i < u.steps.len() implies action_ok(#[trigger] u.steps[i].action) by {
            assert(u.steps[i] == h.steps[i]);
        }
    }
}

proof fn lemma_ok_redo(h: HistoryView)
    requires
        history_ok(h),
    ensures
        history_ok(spec_redo(h)),
{
    let r = spec_redo(h);
    if h.undone.len() > 0 {
        assert forall|i: int| 0 <= i < r.steps.len() implies action_ok(#[trigger] r.steps[i].action) by {
            if i == h.steps.len() {
                assert(r.steps[i] == h.undone[h.undone.len() - 1]);
            }
        }
        assert forall|i: int| 0 <= i < r.undone.len() implies action_ok(#[trigger] r.undone[i].action) by {
            assert(r.undone[i] == h.undone[i]);
        }
    }
}

proof fn lemma_ok_back(h: HistoryView, target: nat)
    requires
        history_ok(h),
    ensures
        history_ok(back_to(h, target)),
        forall|k: int| 0 <= k < back_steps(h, target).len() ==> action_ok(#[trigger] back_steps(h, target)[k].0.action),
    decreases h.steps.len(),
{
    if h.steps.len() > target {
        lemma_ok_undo(h);
        lemma_ok_back(spec_undo(h), target);
        let rest = back_steps(spec_undo(h), target);
        assert forall|k: int| 0 <= k < back_steps(h, target).len() implies action_ok(
            #[trigger] back_steps(h, target)[k].0.action,
        ) by {
            if k == 0 {
                assert(back_steps(h, target)[0].0 == h.steps[h.steps.len() - 1]);
            } else {
                assert(back_steps(h, target)[k] == rest[k - 1]);
            }
        }
    }
}

proof fn lemma_ok_fwd(h: HistoryView, target: nat)
    requires
        history_ok(h),
    ensures
        history_ok(fwd_to(h, target)),
        forall|k: int| 0 <= k < fwd_steps(h, target).len() ==> action_ok(#[trigger] fwd_steps(h, target)[k].0.action),
    decreases h.undone.len(),
{
    if h.steps.len() < target && h.undone.len() > 0 {
        lemma_ok_redo(h);
        lemma_ok_fwd(spec_redo(h), target);
        let rest = fwd_steps(spec_redo(h), target);
        assert forall|k: int| 0 <= k < fwd_steps(h, target).len() implies action_ok(
            #[trigger] fwd_steps(h, target)[k].0.action,
        ) by {
            if k == 0 {
                assert(fwd_steps(h, target)[0].0 == h.undone[h.undone.len() - 1]);
            } else {
                assert(fwd_steps(h, target)[k] == rest[k - 1]);
            }
        }
    }
}

/// The document side of the editor.
pub struct App {
    pub doc: Document,
    pub history: History,
    pub tool: Tool,
    pub primary: [u8; 4],
    pub secondary: [u8; 4],
    /// The second colour is the current one.
    pub color_swapped: bool,
    /// A stroke is in progress.
    pub drawing: bool,
    /// The active layer's pixels before the stroke.
    pub stroke_base: Option<Vec<u8>>,
    /// The active layer's mask before the stroke, when painting on the mask.
    pub mask_base: Option<Vec<u8>>,
    /// Strokes paint on the active layer's mask, not on its pixels.
    pub edit_mask: bool,
    /// The shape of the selection, one coverage byte per canvas pixel;
    /// `None` when the selection is its frame alone.
    pub sel_mask: Option<Vec<u8>>,
    /// Changes of the selection mask so far.
    pub sel_mask_rev: u64,
    /// What was copied or cut.
    pub clipboard: Option<RectData>,
    pub path: Option<String>,
    pub path_kind: PathKind,
    /// There are changes that are not saved.
    pub dirty: bool,
    /// The last message for the status line.
    pub notice: Option<String>,
    /// The layer being renamed in the panel.
    pub rename: Option<usize>,
    pub rename_buf: String,
}

/// What the editor holds.
pub struct AppView {
    pub doc: DocView,
    pub history: HistoryView,
    pub tool: Tool,
    pub primary: [u8; 4],
    pub secondary: [u8; 4],
    pub color_swapped: bool,
    pub drawing: bool,
    pub stroke_base: Option<Seq<u8>>,
    pub mask_base: Option<Seq<u8>>,
    pub edit_mask: bool,
    pub sel_mask: Option<Seq<u8>>,
    pub sel_mask_rev: u64,
    pub clipboard: Option<(nat, nat, Seq<u8>)>,
    pub path: Option<Seq<char>>,
    pub path_kind: PathKind,
    pub dirty: bool,
    pub notice: Option<Seq<char>>,
    pub rename: Option<nat>,
    pub rename_buf: Seq<char>,
}

pub open spec fn opt_text_view(s: Option<String>) -> Option<Seq<char>> {
    match s {
        Some(t) => Some(t@),
        None => None,
    }
}

/// A fragment as its width, height and pixels.
pub open spec fn opt_rect_view(r: Option<RectData>) -> Option<(nat, nat, Seq<u8>)> {
    match r {
        Some(d) => Some((d.w as nat, d.h as nat, d.pixels@)),
        None => None,
    }
}

pub open spec fn opt_nat_view(i: Option<usize>) -> Option<nat> {
    match i {
        Some(v) => Some(v as nat),
        None => None,
    }
}

impl View for App {
    type V = AppView;

    open spec fn view(&self) -> AppView {
        AppView {
            doc: self.doc@,
            history: self.history@,
            tool: self.tool,
            primary: self.primary,
            secondary: self.secondary,
            color_swapped: self.color_swapped,
            drawing: self.drawing,
            stroke_base: opt_bytes_view(self.stroke_base),
            mask_base: opt_bytes_view(self.mask_base),
            edit_mask: self.edit_mask,
            sel_mask: opt_bytes_view(self.sel_mask),
            sel_mask_rev: self.sel_mask_rev,
            clipboard: opt_rect_view(self.clipboard),
            path: opt_text_view(self.path),
            path_kind: self.path_kind,
            dirty: self.dirty,
            notice: opt_text_view(self.notice),
            rename: opt_nat_view(self.rename),
            rename_buf: self.rename_buf@,
        }
    }
}

impl App {
    /// The document is well formed and has a layer, and every step of the
    /// history can be replayed.
    pub open spec fn wf(&self) -> bool {
        &&& self.doc.wf()
        &&& self.doc@.layers.len() > 0
        &&& history_ok(self.history@)
    }

    /// The current colour.
    pub fn color(&self) -> (c: [u8; 4])
        ensures
            c == if self.color_swapped {
                self.secondary
            } else {
                self.primary
            },
    {
        if self.color_swapped {
            self.secondary
        } else {
            self.primary
        }
    }

    /// Sets the current colour.
    pub fn set_color(&mut self, c: [u8; 4])
        ensures
            final(self)@ == if old(self).color_swapped {
                AppView { secondary: c, ..old(self)@ }
            } else {
                AppView { primary: c, ..old(self)@ }
            },
    {
        if self.color_swapped {
            self.secondary = c;
        } else {
            self.primary = c;
        }
    }

    /// Puts `msg` on the status line.
    pub fn notify(&mut self, msg: &str)
        ensures
            final(self).doc == old(self).doc,
            final(self)@ == (AppView { notice: Some(msg@), ..old(self)@ }),
    {
        self.notice = Some(msg.to_owned());
    }

    /// Ends the stroke in progress (see `spec_end_stroke`).
    pub fn end_stroke(&mut self)
        requires
            old(self).wf(),
        ensures
            final(self).wf(),
            final(self)@.doc != old(self)@.doc ==> final(self).doc.rev != old(self).doc.rev,
            final(self)@ == spec_end_stroke(old(self)@),
            final(self).doc.rev == if old(self).drawing {
                bumped(old(self).doc.rev)
            } else {
                old(self).doc.rev
            },
            bumped(final(self).doc.rev) != old(self).doc.rev,
            bumped(bumped(final(self).doc.rev)) != old(self).doc.rev,
    {
        if !self.drawing {
            return;
        }
        self.drawing = false;
        let a = self.doc.active;
        let ghost h = self.history@;
        let mb = self.mask_base.take();
        match mb {
            Some(before) => {
                let after = copy_opt_bytes(&self.doc.layers[a].mask);
                let same = match &after {
                    Some(m) => bytes_eq(&before, m),
                    None => false,
                };
                if !same {
                    let name = if self.tool == Tool::Eraser {
                        "Ластик по маске"
                    } else {
                        "Кисть по маске"
                    };
                    let act = Action::Mask { layer: a, before: Some(before), after };
                    proof {
                        lemma_ok_push(h, StepView { name: name@, action: act@ });
                    }
                    self.history.push(name, act);
                }
            },
            None => {
                let sb = self.stroke_base.take();
                match sb {
                    Some(before) => {
                        let after = copy_bytes(&self.doc.layers[a].pixels);
                        if !bytes_eq(&before, &after) {
                            let name = self.tool.name();
                            let act = Action::Pixels { layer: a, before, after };
                            proof {
                                lemma_ok_push(h, StepView { name: name@, action: act@ });
                            }
                            self.history.push(name, act);
                        }
                    },
                    None => {},
                }
            },
        }
        self.doc.touch();
    }

    /// Undoes the last step of the history, after ending the stroke in
    /// progress (see `spec_app_undo`).
    pub fn undo(&mut self)
        requires
            old(self).wf(),
        ensures
            final(self).wf(),
            final(self)@ == spec_app_undo(old(self)@),
    {
        self.end_stroke();
        let ghost h = self.history@;
        proof {
            lemma_ok_undo(h);
        }
        match self.history.undo() {
            None => {},
            Some(st) => {
                assert(action_ok(h.steps[h.steps.len() - 1].action));
                self.apply_inverse(&st.action);
                self.doc.touch();
                self.dirty = true;
                let mut m = "Отменено: ".to_owned();
                m.append(st.name.as_str());
                self.notice = Some(m);
            },
        }
    }

    /// Redoes the last undone step, after ending the stroke in progress
    /// (see `spec_app_redo`).
    pub fn redo(&mut self)
        requires
            old(self).wf(),
        ensures
            final(self).wf(),
            final(self)@ == spec_app_redo(old(self)@),
    {
        self.end_stroke();
        let ghost h = self.history@;
        proof {
            lemma_ok_redo(h);
        }
        match self.history.redo() {
            None => {},
            Some(st) => {
                assert(action_ok(h.undone[h.undone.len() - 1].action));
                self.apply_forward(&st.action);
                self.doc.touch();
                self.dirty = true;
                let mut m = "Повторено: ".to_owned();
                m.append(st.name.as_str());
                self.notice = Some(m);
            },
        }
    }

    /// Winds the history to `target` steps, as the history panel does: the
    /// steps on the way are taken back or done again in order (see
    /// `spec_app_goto`).
    pub fn history_goto(&mut self, target: usize)
        requires
            old(self).wf(),
        ensures
            final(self).wf(),
            final(self)@ == spec_app_goto(old(self)@, target as nat),
    {
        self.end_stroke();
        let ghost s = self@;
        let ghost ms = goto_moves(s.history, target as nat);
        proof {
            lemma_ok_back(s.history, target as nat);
            lemma_ok_fwd(back_to(s.history, target as nat), target as nat);
            assert forall|k: int| 0 <= k < ms.len() implies action_ok(#[trigger] ms[k].0.action) by {
                let b = back_steps(s.history, target as nat);
                let f = fwd_steps(back_to(s.history, target as nat), target as nat);
                if k < b.len() {
                    assert(ms[k] == b[k]);
                    assert(action_ok(b[k].0.action));
                } else {
                    assert(ms[k] == f[k - b.len()]);
                    assert(action_ok(f[k - b.len()].0.action));
                }
            }
        }
        let steps = self.history.goto(target);
        assert(steps@.map_values(|p: (Step, bool)| move_view(p)) == ms);
        if steps.len() == 0 {
            return;
        }
        let ghost s1 = self@;
        let mut k: usize = 0;
        while k < steps.len()
            invariant
                k <= steps@.len(),
                ms.len() == steps@.len(),
                steps@.map_values(|p: (Step, bool)| move_view(p)) == ms,
                forall|j: int| 0 <= j < ms.len() ==> action_ok(#[trigger] ms[j].0.action),
                self.wf(),
                self@ == (AppView { doc: apply_moves(s.doc, ms.take(k as int)), ..s1 }),
                s1.doc == s.doc,
            decreases steps@.len() - k,
        {
            assert(ms[k as int] == move_view(steps@[k as int]));
            assert(action_ok(ms[k as int].0.action));
            if steps[k].1 {
                self.apply_forward(&steps[k].0.action);
            } else {
                self.apply_inverse(&steps[k].0.action);
            }
            assert(ms.take(k + 1).drop_last() =~= ms.take(k as int));
            assert(ms.take(k + 1).last() == ms[k as int]);
            k = k + 1;
        }
        assert(ms.take(steps@.len() as int) =~= ms);
        let last = steps.len() - 1;
        assert(ms.last() == move_view(steps@[last as int]));
        self.doc.touch();
        self.dirty = true;
        let mut m = "История: ".to_owned();
        m.append(steps[last].0.name.as_str());
        self.notice = Some(m);
    }

    /// The names of the history's states: the new document first, then
    /// each step done.
    pub fn history_labels(&self) -> (v: Vec<String>)
        ensures
            v@.len() == self.history@.steps.len() + 1,
            v@[0]@ == "Новый документ"@,
            forall|i: int| 0 <= i < self.history@.steps.len() ==> (#[trigger] v@[i + 1])@ == self.history@.steps[i].name,
    {
        let mut v: Vec<String> = Vec::new();
        v.push("Новый документ".to_owned());
        let mut i: usize = 0;
        while i < self.history.steps.len()
            invariant
                i <= self.history.steps@.len(),
                v@.len() == i + 1,
                v@[0]@ == "Новый документ"@,
                forall|j: int| 0 <= j < i ==> (#[trigger] v@[j + 1])@ == self.history@.steps[j].name,
            decreases self.history.steps@.len() - i,
        {
            v.push(self.history.steps[i].name.clone());
            i = i + 1;
        }
        v
    }

    /// Takes action `a` back (see `spec_apply_inverse`).
    fn apply_inverse(&mut self, a: &Action)
        requires
            old(self).wf(),
            action_ok(a@),
        ensures
            final(self).wf(),
            final(self)@ == (AppView { doc: spec_apply_inverse(old(self)@.doc, a@), ..old(self)@ }),
    {
        let n = self.doc.layers.len();
        let w = self.doc.width;
        let h = self.doc.height;
        match a {
            Action::Pixels { layer, before, after } => {
                if *layer < n && self.doc.layers[*layer].pixels.len() == before.len() {
                    put_pixels(&mut self.doc, *layer, copy_bytes(before));
                }
            },
            Action::LayerAdd { index } => {
                if *index < n && n > 1 {
                    take_layer(&mut self.doc, *index);
                }
            },
            Action::LayerDelete { index, layer } => {
                if layer.pixels.len() == w * h * 4 {
                    let idx = if *index < n {
                        *index
                    } else {
                        n
                    };
                    put_back_layer(&mut self.doc, idx, layer.copy());
                }
            },
            Action::LayerMove { from, to } => {},
            Action::LayerMeta { index, before, after } => {
                if *index < n {
                    put_meta(&mut self.doc, *index, before.copy());
                }
            },
            Action::Mask { layer, before, after } => {
                if *layer < n {
                    put_mask(&mut self.doc, *layer, copy_opt_bytes(before));
                }
            },
            Action::Merge { top_index, top, under_index, under_before } => {
                if top.pixels.len() == w * h * 4 {
                    let idx = if *top_index < n {
                        *top_index
                    } else {
                        n
                    };
                    put_back_layer(&mut self.doc, idx, top.copy());
                    let u = *under_index;
                    if u < self.doc.layers.len() && self.doc.layers[u].pixels.len() == under_before.len() {
                        put_pixels(&mut self.doc, u, copy_bytes(under_before));
                    }
                    self.doc.active = idx;
                }
            },
            Action::Document { before, after } => {
                self.doc = before.copy();
            },
        }
    }

    /// Does action `a` again (see `spec_apply_forward`).
    fn apply_forward(&mut self, a: &Action)
        requires
            old(self).wf(),
            action_ok(a@),
        ensures
            final(self).wf(),
            final(self)@ == (AppView { doc: spec_apply_forward(old(self)@.doc, a@), ..old(self)@ }),
    {
        let n = self.doc.layers.len();
        let w = self.doc.width;
        let h = self.doc.height;
        match a {
            Action::Pixels { layer, before, after } => {
                if *layer < n && self.doc.layers[*layer].pixels.len() == after.len() {
                    put_pixels(&mut self.doc, *layer, copy_bytes(after));
                }
            },
            Action::LayerAdd { index } => {
                let idx = if *index < n {
                    *index
                } else {
                    n
                };
                put_back_layer(&mut self.doc, idx, Layer::new(w, h, "Слой"));
            },
            Action::LayerDelete { index, layer } => {
                if *index < n && n > 1 {
                    take_layer(&mut self.doc, *index);
                }
            },
            Action::LayerMove { from, to } => {},
            Action::LayerMeta { index, before, after } => {
                if *index < n {
                    put_meta(&mut self.doc, *index, after.copy());
                }
            },
            Action::Mask { layer, before, after } => {
                if *layer < n {
                    put_mask(&mut self.doc, *layer, copy_opt_bytes(after));
                }
            },
            Action::Merge { top_index, top, under_index, under_before } => {
                let u = *under_index;
                if u < n && top.pixels.len() == w * h * 4 {
                    merge_layer(&mut self.doc, u, &top.pixels);
                }
                if *top_index < n && n > 1 {
                    take_layer(&mut self.doc, *top_index);
                }
                let last = self.doc.layers.len() - 1;
                self.doc.active = if u < last {
                    u
                } else {
                    last
                };
            },
            Action::Document { before, after } => {
                self.doc = after.copy();
            },
        }
    }
}

/// Paints `top`, of the canvas size, over layer `i` (see `merged`).
pub(crate) fn merge_layer(doc: &mut Document, i: usize, top: &Vec<u8>)
    requires
        old(doc).wf(),
        i < old(doc).layers@.len(),
        top@.len() == old(doc).width * old(doc).height * 4,
    ensures
        final(doc).wf(),
        final(doc)@ == set_layer(
            old(doc)@,
            i as int,
            with_pixels(old(doc)@.layers[i as int], merged(old(doc)@.layers[i as int].pixels, top@)),
        ),
        final(doc).rev == old(doc).rev,
{
    let ghost d = doc@;
    let w = doc.width;
    let h = doc.height;
    let mut l = doc.layers.remove(i);
    assert(l@ == d.layers[i as int]);
    merge_pixels(&mut l, top, w, h);
    doc.layers.insert(i, l);
    assert(doc@.layers =~= d.layers.update(
        i as int,
        with_pixels(d.layers[i as int], merged(d.layers[i as int].pixels, top@)),
    ));
}

/// Paints `top` over `under`, pixel by pixel, both of `w`×`h` pixels.
fn merge_pixels(under: &mut Layer, top: &Vec<u8>, w: usize, h: usize)
    requires
        w * h * 4 <= usize::MAX,
        old(under).pixels@.len() == w * h * 4,
        top@.len() == w * h * 4,
    ensures
        final(under)@ == with_pixels(old(under)@, merged(old(under).pixels@, top@)),
{
    let ghost u0 = under.pixels@;
    let n = w * h;
    let mut i: usize = 0;
    while i < n
        invariant
            n == w * h,
            n * 4 <= usize::MAX,
            i <= n,
            top@.len() == n * 4,
            under.pixels@.len() == n * 4,
            u0.len() == n * 4,
            under.meta == old(under).meta,
            under.mask == old(under).mask,
            under.mask_on == old(under).mask_on,
            forall|k: int|
                0 <= k < n * 4 ==> #[trigger] under.pixels@[k] == if k < i * 4 {
                    merged_byte(u0, top@, k)
                } else {
                    u0[k]
                },
        decreases n - i,
    {
        let c = [top[i * 4], top[i * 4 + 1], top[i * 4 + 2], top[i * 4 + 3]];
        let ghost p = under.pixels@;
        if c[3] != 0 {
            proof {
                vstd::arithmetic::div_mod::lemma_fundamental_div_mod(i as int, w as int);
                assert(w > 0);
                assert((i / w) * w + i % w == i) by (nonlinear_arith)
                    requires
                        i == w * (i / w) + i % w,
                ;
            }
            under.blend(w, i % w, i / w, c);
            assert forall|k: int| 0 <= k < n * 4 implies #[trigger] under.pixels@[k] == if k < (i + 1) * 4 {
                merged_byte(u0, top@, k)
            } else {
                u0[k]
            } by {
                if i * 4 <= k < i * 4 + 4 {
                    assert(k / 4 == i);
                    assert(p[k] == u0[k]);
                }
            }
        } else {
            assert forall|k: int| 0 <= k < n * 4 implies #[trigger] under.pixels@[k] == if k < (i + 1) * 4 {
                merged_byte(u0, top@, k)
            } else {
                u0[k]
            } by {
                if i * 4 <= k < i * 4 + 4 {
                    assert(k / 4 == i);
                }
            }
        }
        i = i + 1;
    }
    assert(under.pixels@ =~= merged(u0, top@));
}

/// Gives layer `i` the pixels `p` of the same length.
pub(crate) fn put_pixels(doc: &mut Document, i: usize, p: Vec<u8>)
    requires
        old(doc).wf(),
        i < old(doc).layers@.len(),
        old(doc).layers@[i as int].pixels@.len() == p@.len(),
    ensures
        final(doc).wf(),
        final(doc)@ == set_layer(old(doc)@, i as int, with_pixels(old(doc)@.layers[i as int], p@)),
        final(doc).rev == old(doc).rev,
{
    let ghost d = doc@;
    let mut l = doc.layers.remove(i);
    l.pixels = p;
    doc.layers.insert(i, l);
    assert(doc@.layers =~= d.layers.update(i as int, with_pixels(d.layers[i as int], p@)));
}

/// Gives layer `i` the settings `m`.
pub(crate) fn put_meta(doc: &mut Document, i: usize, m: crate::doc::LayerMeta)
    requires
        old(doc).wf(),
        i < old(doc).layers@.len(),
    ensures
        final(doc).wf(),
        final(doc)@ == set_layer(old(doc)@, i as int, LayerView { meta: m@, ..old(doc)@.layers[i as int] }),
        final(doc).rev == old(doc).rev,
{
    let ghost d = doc@;
    let mut l = doc.layers.remove(i);
    l.meta = m;
    doc.layers.insert(i, l);
    assert(doc@.layers =~= d.layers.update(i as int, LayerView { meta: m@, ..d.layers[i as int] }));
}

/// Gives layer `i` the mask `m` (see `with_mask`).
pub(crate) fn put_mask(doc: &mut Document, i: usize, m: Option<Vec<u8>>)
    requires
        old(doc).wf(),
        i < old(doc).layers@.len(),
    ensures
        final(doc).wf(),
        final(doc)@ == set_layer(old(doc)@, i as int, with_mask(old(doc)@.layers[i as int], opt_bytes_view(m))),
        final(doc).rev == old(doc).rev,
{
    let ghost d = doc@;
    let ghost mv = opt_bytes_view(m);
    let mut l = doc.layers.remove(i);
    if m.is_some() {
        l.mask_on = true;
    }
    l.mask = m;
    doc.layers.insert(i, l);
    assert(doc@.layers =~= d.layers.update(i as int, with_mask(d.layers[i as int], mv)));
}

/// Takes layer `i` out of a document of two layers or more; the active
/// index is held inside the rest.
fn take_layer(doc: &mut Document, i: usize)
    requires
        old(doc).wf(),
        i < old(doc).layers@.len(),
        old(doc).layers@.len() > 1,
    ensures
        final(doc).wf(),
        final(doc)@ == (DocView {
            layers: old(doc)@.layers.remove(i as int),
            active: min_nat(old(doc)@.active, (old(doc)@.layers.len() - 2) as nat),
            ..old(doc)@
        }),
        final(doc).rev == old(doc).rev,
{
    let ghost d = doc@;
    let n = doc.layers.len();
    doc.layers.remove(i);
    if doc.active > n - 2 {
        doc.active = n - 2;
    }
    assert(doc@.layers =~= d.layers.remove(i as int));
}

/// Puts layer `l`, of the canvas size, in at `i` and makes it active.
fn put_back_layer(doc: &mut Document, i: usize, l: Layer)
    requires
        old(doc).wf(),
        i <= old(doc).layers@.len(),
        l@.pixels.len() == old(doc).width * old(doc).height * 4,
    ensures
        final(doc).wf(),
        final(doc)@ == (DocView { layers: old(doc)@.layers.insert(i as int, l@), active: i as nat, ..old(doc)@ }),
        final(doc).rev == old(doc).rev,
{
    let ghost d = doc@;
    let ghost lv = l@;
    doc.layers.insert(i, l);
    doc.active = i;
    assert(doc@.layers =~= d.layers.insert(i as int, lv));
}

/// The two byte strings are equal.
pub(crate) fn bytes_eq(a: &Vec<u8>, b: &Vec<u8>) -> (r: bool)
    ensures
        r == (a@ == b@),
{
    if a.len() != b.len() {
        return false;
    }
    let mut i: usize = 0;
    while i < a.len()
        invariant
            i <= a@.len(),
            a@.len() == b@.len(),
            forall|k: int| 0 <= k < i ==> a@[k] == b@[k],
        decreases a@.len() - i,
    {
        if a[i] != b[i] {
            return false;
        }
        i = i + 1;
    }
    assert(a@ =~= b@);
    true
}

pub(crate) fn copy_bytes(v: &Vec<u8>) -> (r: Vec<u8>)
    ensures
        r@ == v@,
{
    let r = v.clone();
    assert(r@ =~= v@);
    r
}

pub(crate) fn copy_opt_bytes(v: &Option<Vec<u8>>) -> (r: Option<Vec<u8>>)
    ensures
        opt_bytes_view(r) == opt_bytes_view(*v),
{
    match v {
        Some(b) => Some(copy_bytes(b)),
        None => None,
    }
}

} // verus!
