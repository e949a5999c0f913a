//! What undo and redo promise: a step undone right after it was recorded
//! gives the document back, and a step redone right after it was undone
//! gives back the state it was undone from.
use crate::doc::{blank_layer, MetaView};
use crate::document::{min_nat, with_pixels, DocView};
use crate::editor::{
    docview_wf, merged, spec_app_redo, spec_app_undo, spec_apply_forward, spec_apply_inverse, spec_end_stroke,
    AppView,
};
use crate::editor_groups::spec_app_set_layer_meta;
use crate::editor_layers::{
    spec_app_add_layer, spec_app_clear_layer, spec_app_delete_layer, spec_app_duplicate_layer, spec_app_flip_layer,
    spec_app_merge_down, spec_app_transform_canvas,
};
use crate::editor_masks::spec_app_delete_mask;
use crate::editor_paint::spec_app_fill_at;
use crate::editor_select::spec_app_cut_selection;
use crate::app::CanvasOp;
use crate::history::{spec_push, ActionView, HistoryView};
use vstd::prelude::*;

verus! {

/// `d` is a state right after action `a` was done: the data `a` holds for
/// afterwards is what `d` holds.
pub open spec fn after_of(d: DocView, a: ActionView) -> bool {
    let n = d.layers.len();
    match a {
        ActionView::Pixels { layer, before, after } => layer < n && d.layers[layer as int].pixels == after
            && before.len() == after.len(),
        ActionView::LayerAdd { index } => index < n && n > 1 && d.layers[index as int] == blank_layer(
            d.width,
            d.height,
            "Слой"@,
        ) && d.active == index,
        ActionView::LayerDelete { index, layer } => index <= n && layer.pixels.len() == d.width * d.height * 4
            && d.active == min_nat(index, (n - 1) as nat),
        ActionView::LayerMove { from, to } => true,
        ActionView::LayerMeta { index, before, after } => index < n && d.layers[index as int].meta == after,
        ActionView::Mask { layer, before, after } => layer < n && d.layers[layer as int].mask == after && ((
        after is Some || before is Some) ==> d.layers[layer as int].mask_on),
        ActionView::Merge { top_index, top, under_index, under_before } => {
            &&& top_index == under_index + 1
            &&& top_index <= n
            &&& top.pixels.len() == d.width * d.height * 4
            &&& under_before.len() == d.width * d.height * 4
            &&& d.layers[under_index as int].pixels == merged(under_before, top.pixels)
            &&& d.active == under_index
        },
        ActionView::Document { before, after } => d == after,
    }
}

/// Redoing a step right after undoing it gives back the state it was
/// undone from.
pub proof fn lemma_redo_after_undo(d: DocView, a: ActionView)
    requires
        docview_wf(d),
        after_of(d, a),
    ensures
        spec_apply_forward(spec_apply_inverse(d, a), a) == d,
{
    let n = d.layers.len();
    let r = spec_apply_forward(spec_apply_inverse(d, a), a);
    match a {
        ActionView::Pixels { layer, before, after } => {
            assert(r.layers =~= d.layers);
        },
        ActionView::LayerAdd { index } => {
            assert(r.layers =~= d.layers);
        },
        ActionView::LayerDelete { index, layer } => {
            assert(r.layers =~= d.layers);
        },
        ActionView::LayerMove { from, to } => {},
        ActionView::LayerMeta { index, before, after } => {
            assert(r.layers =~= d.layers);
        },
        ActionView::Mask { layer, before, after } => {
            assert(r.layers[layer as int] == d.layers[layer as int]);
            assert(r.layers =~= d.layers);
        },
        ActionView::Merge { top_index, top, under_index, under_before } => {
            let u = under_index as int;
            let ls = d.layers.insert(top_index as int, top);
            assert(ls[u] == d.layers[u]);
            let back = ls.update(u, with_pixels(ls[u], under_before));
            assert(spec_apply_inverse(d, a).layers == back);
            assert(back[u].pixels == under_before);
            let merged_again = back.update(u, with_pixels(back[u], merged(under_before, top.pixels)));
            assert(merged_again.remove(top_index as int) =~= d.layers);
            assert(r.layers =~= d.layers);
        },
        ActionView::Document { before, after } => {},
    }
}

/// The editor's undo and redo, one right after the other, give back the
/// document and the history when the last step was recorded from the
/// current document.
pub proof fn lemma_app_redo_after_undo(s: AppView)
    requires
        docview_wf(s.doc),
        !s.drawing,
        s.history.steps.len() > 0,
        after_of(s.doc, s.history.steps.last().action),
    ensures
        spec_app_redo(spec_app_undo(s)).doc == s.doc,
        spec_app_redo(spec_app_undo(s)).history == s.history,
{
    lemma_redo_after_undo(s.doc, s.history.steps.last().action);
    crate::history::lemma_undo_redo(s.history);
}

/// The document kept with the canvas size and layers of `d` (the active
/// layer aside).
pub open spec fn same_content(a: DocView, b: DocView) -> bool {
    a.width == b.width && a.height == b.height && a.layers == b.layers
}

proof fn lemma_pushed_last(h: HistoryView, st: crate::history::StepView)
    requires
        h.limit > 0,
    ensures
        spec_push(h, st).steps.len() > 0,
        spec_push(h, st).steps.last() == st,
{
}

/// Undoing right after clearing the active layer gives the document back.
pub proof fn lemma_undo_clear_layer(s: AppView)
    requires
        docview_wf(s.doc),
        s.history.limit > 0,
    ensures
        spec_app_undo(spec_app_clear_layer(s)).doc == s.doc,
{
    let e = spec_end_stroke(s);
    let c = spec_app_clear_layer(s);
    lemma_pushed_last(e.history, c.history.steps.last());
    assert(spec_app_undo(c).doc.layers =~= s.doc.layers);
}

/// Undoing right after mirroring the active layer gives the document back.
pub proof fn lemma_undo_flip_layer(s: AppView, horizontal: bool)
    requires
        docview_wf(s.doc),
        s.history.limit > 0,
    ensures
        spec_app_undo(spec_app_flip_layer(s, horizontal)).doc == s.doc,
{
    let e = spec_end_stroke(s);
    let c = spec_app_flip_layer(s, horizontal);
    lemma_pushed_last(e.history, c.history.steps.last());
    assert(spec_app_undo(c).doc.layers =~= s.doc.layers);
}

/// Undoing right after removing the active layer brings it back, active.
pub proof fn lemma_undo_delete_layer(s: AppView)
    requires
        docview_wf(s.doc),
        s.history.limit > 0,
        s.doc.layers.len() > 1,
    ensures
        spec_app_undo(spec_app_delete_layer(s)).doc == s.doc,
{
    let e = spec_end_stroke(s);
    let c = spec_app_delete_layer(s);
    lemma_pushed_last(e.history, c.history.steps.last());
    assert(spec_app_undo(c).doc.layers =~= s.doc.layers);
}

/// Undoing right after merging a layer down brings both layers back as they
/// were, the upper one active.
pub proof fn lemma_undo_merge_down(s: AppView)
    requires
        docview_wf(s.doc),
        s.history.limit > 0,
        s.doc.active > 0,
    ensures
        spec_app_undo(spec_app_merge_down(s)).doc == s.doc,
{
    let e = spec_end_stroke(s);
    let c = spec_app_merge_down(s);
    lemma_pushed_last(e.history, c.history.steps.last());
    let a = s.doc.active as int;
    let u = a - 1;
    let ls = s.doc.layers;
    let upd = ls.update(u, with_pixels(ls[u], merged(ls[u].pixels, ls[a].pixels)));
    let back = upd.remove(a).insert(a, ls[a]);
    assert(back =~= upd);
    assert(spec_app_undo(c).doc.layers =~= s.doc.layers);
}

/// Undoing right after adding a layer takes it away again.
pub proof fn lemma_undo_add_layer(s: AppView)
    requires
        docview_wf(s.doc),
        s.history.limit > 0,
    ensures
        same_content(spec_app_undo(spec_app_add_layer(s)).doc, s.doc),
{
    let e = spec_end_stroke(s);
    let c = spec_app_add_layer(s);
    lemma_pushed_last(e.history, c.history.steps.last());
    assert(spec_app_undo(c).doc.layers =~= s.doc.layers);
}

/// Undoing right after copying a layer takes the copy away again.
pub proof fn lemma_undo_duplicate_layer(s: AppView)
    requires
        docview_wf(s.doc),
        s.history.limit > 0,
    ensures
        same_content(spec_app_undo(spec_app_duplicate_layer(s)).doc, s.doc),
{
    let e = spec_end_stroke(s);
    let c = spec_app_duplicate_layer(s);
    lemma_pushed_last(e.history, c.history.steps.last());
    let a = s.doc.active as int;
    assert(c.doc.layers.remove(a + 1) =~= s.doc.layers);
}

/// Undoing right after turning or mirroring the canvas gives the document
/// back.
pub proof fn lemma_undo_transform_canvas(s: AppView, op: CanvasOp)
    requires
        docview_wf(s.doc),
        s.history.limit > 0,
    ensures
        spec_app_undo(spec_app_transform_canvas(s, op)).doc == s.doc,
{
    let e = spec_end_stroke(s);
    let c = spec_app_transform_canvas(s, op);
    lemma_pushed_last(crate::editor_layers::keep_last_two(e.history), c.history.steps.last());
}

/// Undoing right after changing a layer's settings gives the old settings
/// back.
pub proof fn lemma_undo_set_layer_meta(s: AppView, index: int, after: MetaView)
    requires
        docview_wf(s.doc),
        s.history.limit > 0,
        !s.drawing,
        0 <= index < s.doc.layers.len(),
        s.doc.layers[index].meta != after,
    ensures
        spec_app_undo(spec_app_set_layer_meta(s, index, after)).doc == s.doc,
{
    let c = spec_app_set_layer_meta(s, index, after);
    lemma_pushed_last(s.history, c.history.steps.last());
    assert(spec_app_undo(c).doc.layers =~= s.doc.layers);
}

/// Undoing right after removing a switched-on mask brings it back.
pub proof fn lemma_undo_delete_mask(s: AppView)
    requires
        docview_wf(s.doc),
        s.history.limit > 0,
        s.doc.layers[s.doc.active as int].mask is Some,
        s.doc.layers[s.doc.active as int].mask_on,
    ensures
        spec_app_undo(spec_app_delete_mask(s)).doc == s.doc,
{
    let e = spec_end_stroke(s);
    let c = spec_app_delete_mask(s);
    lemma_pushed_last(e.history, c.history.steps.last());
    assert(spec_app_undo(c).doc.layers =~= s.doc.layers);
}

/// Undoing right after cutting the selection puts the pixels back.
pub proof fn lemma_undo_cut_selection(s: AppView, c: (usize, usize, usize, usize))
    requires
        docview_wf(s.doc),
        s.history.limit > 0,
        !s.doc.layers[s.doc.active as int].meta.locked,
    ensures
        spec_app_undo(spec_app_cut_selection(s, Some(Some(c)))).doc == s.doc,
{
    let e = spec_end_stroke(s);
    let t = spec_app_cut_selection(s, Some(Some(c)));
    lemma_pushed_last(e.history, t.history.steps.last());
    assert(spec_app_undo(t).doc.layers =~= s.doc.layers);
}

/// Undoing right after a fill at a pixel of the canvas gives the document
/// back (a stroke in progress would be recorded first, so there is none).
pub proof fn lemma_undo_fill_at(
    s: AppView,
    x: int,
    y: int,
    secondary: bool,
    alpha: u8,
    opaque: bool,
    tolerance: u8,
    contiguous: bool,
)
    requires
        docview_wf(s.doc),
        s.history.limit > 0,
        !s.drawing,
        0 <= x < s.doc.width,
        0 <= y < s.doc.height,
    ensures
        spec_app_undo(spec_app_fill_at(s, x, y, secondary, alpha, opaque, tolerance, contiguous)).doc == s.doc,
{
    let c = spec_app_fill_at(s, x, y, secondary, alpha, opaque, tolerance, contiguous);
    lemma_pushed_last(s.history, c.history.steps.last());
    assert(spec_end_stroke(c) == c);
    assert(spec_app_undo(c).doc.layers =~= s.doc.layers);
}

} // verus!
