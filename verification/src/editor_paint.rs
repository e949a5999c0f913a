//! Tools that act at one canvas pixel: the eyedropper, the fill, the magic
//! wand, and the start of a stroke with its colour and brush footprint. Where the pointer is, and the brush
//! stamps of a stroke, are floating point and stay with the window; these
//! take the pixel under the pointer.
use crate::doc::{px4, zeros};
use crate::document::with_pixels;
use crate::editor::{copy_bytes, lemma_ok_push, set_layer, App, AppView};
use crate::editor_layers::{size_string, size_text};
use crate::editor_select::{any_selected, with_sel_mask};
use crate::history::{spec_push, Action, ActionView, StepView};
use crate::raster::{bounds_of_selection, flood_fill, pick, spec_flood_fill, wand, wand_takes, wand_tolerance};
use crate::raster::Shape;
use crate::tools::{BrushShape, Tool};
use vstd::prelude::*;

verus! {

/// The colour the eyedropper takes: the pixel's, or opaque white where the
/// pixel is fully transparent.
pub open spec fn picked(c: [u8; 4]) -> [u8; 4] {
    if c[3] == 0 {
        [255u8, 255u8, 255u8, 255u8]
    } else {
        c
    }
}

/// The pixel `(x, y)` of the active layer; transparent black off the canvas.
pub open spec fn active_pixel(s: AppView, x: int, y: int) -> [u8; 4] {
    if 0 <= x < s.doc.width && 0 <= y < s.doc.height {
        px4(s.doc.layers[s.doc.active as int].pixels, s.doc.width as int, x, y)
    } else {
        [0u8, 0u8, 0u8, 0u8]
    }
}

/// The editor after `pick(x, y)`: the current colour is taken from the
/// active layer and the brush is chosen.
pub open spec fn spec_app_pick(s: AppView, x: int, y: int) -> AppView {
    let c = picked(active_pixel(s, x, y));
    if s.color_swapped {
        AppView { secondary: c, tool: Tool::Brush, ..s }
    } else {
        AppView { primary: c, tool: Tool::Brush, ..s }
    }
}

/// The colour that fills use: the current one (or the other one), made
/// opaque when it is fully transparent.
pub open spec fn spec_fill_color(s: AppView, secondary: bool) -> [u8; 4] {
    let c = if secondary != s.color_swapped {
        s.secondary
    } else {
        s.primary
    };
    [c[0], c[1], c[2], if c[3] == 0 {
        255u8
    } else {
        c[3]
    }]
}

/// The editor after `fill_at`: the fill is made on the active layer and
/// always recorded as a step, even when it changed nothing; a start off the
/// canvas does nothing.
pub open spec fn spec_app_fill_at(
    s: AppView,
    x: int,
    y: int,
    secondary: bool,
    alpha: u8,
    opaque: bool,
    tolerance: u8,
    contiguous: bool,
) -> AppView {
    if !(0 <= x < s.doc.width && 0 <= y < s.doc.height) {
        s
    } else {
        let a = s.doc.active;
        let before = s.doc.layers[a as int].pixels;
        let after = spec_flood_fill(
            before,
            s.doc.width as int,
            s.doc.height as int,
            x,
            y,
            spec_fill_color(s, secondary),
            alpha,
            opaque,
            tolerance as int,
            contiguous,
        );
        AppView {
            doc: set_layer(s.doc, a as int, with_pixels(s.doc.layers[a as int], after)),
            history: spec_push(
                s.history,
                StepView { name: "Заливка"@, action: ActionView::Pixels { layer: a, before, after } },
            ),
            dirty: true,
            ..s
        }
    }
}

/// The colour a stroke paints with: nothing (transparent) for the eraser,
/// otherwise the current colour (or the other one), made opaque when it is
/// fully transparent.
pub open spec fn spec_stroke_color(s: AppView, secondary: bool) -> [u8; 4] {
    let c = if secondary != s.color_swapped {
        s.secondary
    } else {
        s.primary
    };
    if s.tool == Tool::Eraser {
        [0u8, 0u8, 0u8, 0u8]
    } else if c[3] == 0 {
        [c[0], c[1], c[2], 255u8]
    } else {
        c
    }
}

/// The footprint of a brush stamp: always round for the pencil, otherwise
/// the chosen brush shape.
pub open spec fn spec_brush_shape(tool: Tool, shape: BrushShape) -> Shape {
    if tool == Tool::Pencil {
        Shape::Round
    } else {
        match shape {
            BrushShape::Ellipse => Shape::Ellipse,
            BrushShape::Square => Shape::Square,
            BrushShape::Round => Shape::Round,
        }
    }
}

/// The mask the magic wand starts from: the selection mask when adding to
/// it, otherwise an empty one.
pub open spec fn wand_base(s: AppView, add: bool) -> Seq<u8> {
    if add && s.sel_mask is Some {
        s.sel_mask->0
    } else {
        Seq::new(s.doc.width * s.doc.height, |i: int| 0u8)
    }
}

/// The selection mask after the magic wand at `(x, y)`: the pixels of the
/// active layer that the wand takes are marked with 255.
pub open spec fn wand_mask(s: AppView, x: int, y: int, tolerance: i32, contiguous: bool, add: bool) -> Seq<u8> {
    let m = wand_base(s, add);
    let w = s.doc.width as int;
    let h = s.doc.height as int;
    Seq::new(
        m.len(),
        |k: int|
            if k < w * h && wand_takes(
                s.doc.layers[s.doc.active as int].pixels,
                w,
                h,
                x,
                y,
                wand_tolerance(tolerance),
                contiguous,
                k % w,
                k / w,
            ) {
                255u8
            } else {
                m[k]
            },
    )
}

/// What the status line says after the magic wand.
pub open spec fn wand_notice(r: Option<(usize, usize, usize, usize)>) -> Seq<char> {
    match r {
        Some(b) => "Выделено "@ + size_text((b.2 - b.0) as nat, (b.3 - b.1) as nat) + " пикселей"@,
        None => "Под курсором нечего выделять"@,
    }
}

/// How a stroke starts.
#[derive(Clone, Copy, PartialEq, Eq, Structural, Debug)]
pub enum StrokeStart {
    /// The stroke is refused; the reason is on the status line.
    Refused,
    /// The stroke paints the active layer's mask with this value.
    Mask(u8),
    /// The stroke paints the active layer's pixels.
    Pixels,
}

/// The editor when a stroke starts, and how it starts: not on a locked
/// layer; on the mask only with the pencil, brush or eraser and only when
/// the layer has a mask (the eraser closes it, the others open it);
/// otherwise on the pixels. The layer as it was is kept for the history.
pub open spec fn spec_app_start_stroke(s: AppView) -> (AppView, StrokeStart) {
    let l = s.doc.layers[s.doc.active as int];
    if l.meta.locked {
        (AppView { notice: Some("Слой заблокирован"@), ..s }, StrokeStart::Refused)
    } else if s.edit_mask {
        if !(s.tool == Tool::Pencil || s.tool == Tool::Brush || s.tool == Tool::Eraser) {
            (AppView { notice: Some("По маске рисует кисть или ластик"@), ..s }, StrokeStart::Refused)
        } else if l.mask is None {
            (AppView { edit_mask: false, notice: Some("У слоя нет маски"@), ..s }, StrokeStart::Refused)
        } else {
            (
                AppView { mask_base: l.mask, drawing: true, ..s },
                StrokeStart::Mask(
                    if s.tool == Tool::Eraser {
                        0u8
                    } else {
                        255u8
                    },
                ),
            )
        }
    } else {
        (AppView { stroke_base: Some(l.pixels), drawing: true, ..s }, StrokeStart::Pixels)
    }
}

impl App {
    /// The eyedropper at pixel `(x, y)` (see `spec_app_pick`).
    pub fn pick(&mut self, x: i32, y: i32)
        requires
            old(self).wf(),
        ensures
            final(self).wf(),
            final(self)@.doc != old(self)@.doc ==> final(self).doc.rev != old(self).doc.rev,
            final(self)@ == spec_app_pick(old(self)@, x as int, y as int),
    {
        let a = self.doc.active;
        assert(self@.doc.layers[a as int] == self.doc.layers@[a as int]@);
        let mut c = pick(&self.doc.layers[a], self.doc.width, self.doc.height, x, y);
        if c[3] == 0 {
            c = [255, 255, 255, 255];
        }
        self.set_color(c);
        self.tool = Tool::Brush;
    }

    /// The colour of a fill (see `spec_fill_color`).
    pub fn fill_color(&self, secondary: bool) -> (c: [u8; 4])
        ensures
            c == spec_fill_color(self@, secondary),
    {
        let c = if secondary != self.color_swapped {
            self.secondary
        } else {
            self.primary
        };
        [c[0], c[1], c[2], if c[3] == 0 {
            255
        } else {
            c[3]
        }]
    }

    /// The colour a stroke paints with (see `spec_stroke_color`).
    pub fn stroke_color(&self, secondary: bool) -> (c: [u8; 4])
        ensures
            c == spec_stroke_color(self@, secondary),
    {
        if self.tool == Tool::Eraser {
            return [0, 0, 0, 0];
        }
        let c = if secondary != self.color_swapped {
            self.secondary
        } else {
            self.primary
        };
        if c[3] == 0 {
            [c[0], c[1], c[2], 255]
        } else {
            c
        }
    }

    /// The footprint of the brush with the chosen brush shape `shape` (see
    /// `spec_brush_shape`).
    pub fn brush_shape(&self, shape: BrushShape) -> (r: Shape)
        ensures
            r == spec_brush_shape(self.tool, shape),
    {
        if self.tool == Tool::Pencil {
            return Shape::Round;
        }
        match shape {
            BrushShape::Ellipse => Shape::Ellipse,
            BrushShape::Square => Shape::Square,
            BrushShape::Round => Shape::Round,
        }
    }

    /// The fill tool at pixel `(x, y)`, with the fill colour's alpha
    /// `alpha` after the tool opacity (`opaque` when it reaches 254), the
    /// colour tolerance and whether only touching pixels are taken (see
    /// `spec_app_fill_at`).
    pub fn fill_at(
        &mut self,
        x: i32,
        y: i32,
        secondary: bool,
        alpha: u8,
        opaque: bool,
        tolerance: u8,
        contiguous: bool,
    )
        requires
            old(self).wf(),
        ensures
            final(self).wf(),
            final(self)@ == spec_app_fill_at(
                old(self)@,
                x as int,
                y as int,
                secondary,
                alpha,
                opaque,
                tolerance,
                contiguous,
            ),
    {
        let w = self.doc.width;
        let h = self.doc.height;
        if x < 0 || y < 0 || x as usize >= w || y as usize >= h {
            return;
        }
        let ghost s = self@;
        let a = self.doc.active;
        assert(self@.doc.layers[a as int] == self.doc.layers@[a as int]@);
        let col = self.fill_color(secondary);
        let before = copy_bytes(&self.doc.layers[a].pixels);
        let ghost d = self.doc@;
        let mut l = self.doc.layers.remove(a);
        flood_fill(&mut l, w, h, x, y, col, alpha, opaque, tolerance, contiguous);
        let after = copy_bytes(&l.pixels);
        self.doc.layers.insert(a, l);
        assert(self.doc@.layers =~= d.layers.update(a as int, with_pixels(d.layers[a as int], after@)));
        let act = Action::Pixels { layer: a, before, after };
        proof {
            lemma_ok_push(s.history, StepView { name: "Заливка"@, action: act@ });
        }
        self.history.push("Заливка", act);
        self.doc.touch();
        self.dirty = true;
    }
    /// The magic wand at pixel `(x, y)` of the active layer, with the
    /// colour tolerance, taking only touching pixels with `contiguous`, and
    /// adding to the selection mask with `add`; returns the frame of the new
    /// selection (see `wand_mask` and `wand_notice`). A pixel off the canvas
    /// does nothing.
    pub fn wand_select(&mut self, x: i32, y: i32, tolerance: i32, contiguous: bool, add: bool) -> (r: Option<(usize, usize, usize, usize)>)
        requires
            old(self).wf(),
            add && old(self).sel_mask is Some ==> old(self)@.sel_mask->0.len() >= old(self).doc.width
                * old(self).doc.height,
        ensures
            final(self).wf(),
            final(self)@.doc != old(self)@.doc ==> final(self).doc.rev != old(self).doc.rev,
            !(0 <= x < old(self).doc.width && 0 <= y < old(self).doc.height) ==> final(self)@ == old(self)@
                && r is None,
            (0 <= x < old(self).doc.width && 0 <= y < old(self).doc.height) ==> ({
                let m = wand_mask(old(self)@, x as int, y as int, tolerance, contiguous, add);
                let w = old(self).doc.width as nat;
                let h = old(self).doc.height as nat;
                &&& (r is None <==> !any_selected(m, w, h))
                &&& (r matches Some(b) ==> bounds_of_selection(m, w, h, b.0 as int, b.1 as int, b.2 as int, b.3 as int))
                &&& final(self)@ == (AppView { notice: Some(wand_notice(r)), ..with_sel_mask(old(self)@, m, r is Some) })
            }),
    {
        let w = self.doc.width;
        let h = self.doc.height;
        if x < 0 || y < 0 || x as usize >= w || y as usize >= h {
            return None;
        }
        let ghost s = self@;
        assert(w * h <= w * h * 4) by (nonlinear_arith);
        let mut mask: Vec<u8> = if add {
            match &self.sel_mask {
                Some(m) => copy_bytes(m),
                None => zeros(w * h),
            }
        } else {
            zeros(w * h)
        };
        let ghost base = mask@;
        assert(base == wand_base(s, add));
        let a = self.doc.active;
        assert(self@.doc.layers[a as int] == self.doc.layers@[a as int]@);
        wand(&self.doc.layers[a], mask.as_mut_slice(), w, h, x, y, tolerance, contiguous);
        proof {
            let m = wand_mask(s, x as int, y as int, tolerance, contiguous, add);
            assert forall|k: int| 0 <= k < base.len() implies mask@[k] == m[k] by {
                if k < w * h {
                    let xx = k % (w as int);
                    let yy = k / (w as int);
                    assert(yy * w + xx == k) by (nonlinear_arith)
                        requires
                            w > 0,
                            xx == k % (w as int),
                            yy == k / (w as int),
                    ;
                    assert(0 <= yy < h) by (nonlinear_arith)
                        requires
                            w > 0,
                            0 <= k < w * h,
                            yy == k / (w as int),
                    ;
                    assert(0 <= xx < w);
                }
            }
            assert(mask@ =~= m);
        }
        let r = self.set_sel_mask(mask);
        match r {
            Some(b) => {
                let mut msg = "Выделено ".to_owned();
                msg.append(size_string(b.2 - b.0, b.3 - b.1).as_str());
                msg.append(" пикселей");
                self.notice = Some(msg);
            },
            None => {
                self.notify("Под курсором нечего выделять");
            },
        }
        r
    }

    /// Starts a stroke (see `spec_app_start_stroke`); the stamps themselves
    /// are painted by the caller, and `end_stroke` records the step.
    pub fn start_stroke(&mut self) -> (r: StrokeStart)
        requires
            old(self).wf(),
        ensures
            final(self).wf(),
            final(self)@.doc != old(self)@.doc ==> final(self).doc.rev != old(self).doc.rev,
            (final(self)@, r) == spec_app_start_stroke(old(self)@),
    {
        let a = self.doc.active;
        assert(self@.doc.layers[a as int] == self.doc.layers@[a as int]@);
        if self.doc.layers[a].meta.locked {
            self.notify("Слой заблокирован");
            return StrokeStart::Refused;
        }
        if self.edit_mask {
            if !self.tool.is_freehand() {
                self.notify("По маске рисует кисть или ластик");
                return StrokeStart::Refused;
            }
            match &self.doc.layers[a].mask {
                None => {
                    self.edit_mask = false;
                    self.notify("У слоя нет маски");
                    return StrokeStart::Refused;
                },
                Some(m) => {
                    self.mask_base = Some(copy_bytes(m));
                },
            }
            self.drawing = true;
            let value: u8 = if self.tool == Tool::Eraser {
                0
            } else {
                255
            };
            return StrokeStart::Mask(value);
        }
        self.stroke_base = Some(copy_bytes(&self.doc.layers[a].pixels));
        self.drawing = true;
        StrokeStart::Pixels
    }
}

} // verus!
