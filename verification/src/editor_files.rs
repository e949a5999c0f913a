//! Taking documents in and giving them out: a project file read into the
//! editor, a flat image opened or imported as a layer, a project written.
//! Reading and writing the files is left to the caller; here the bytes and
//! pixels are checked and put in place.
use crate::app::PathKind;
use crate::doc::{blank_layer, Layer, LayerView, MetaView};
use crate::document::{decimal_text, DocView, Document};
use crate::editor::{lemma_ok_push, spec_end_stroke, App, AppView};
use crate::editor_layers::{decimal_string, fresh_history, size_text};
use crate::history::{spec_push, Action, ActionView, History, StepView};
use crate::project::{decode, encode, parse_header, parse_layers, spec_decode, spec_encode, ProjectError};
use crate::image_files::{decode_image_rgba, image_error_text, is_whole_image, rgba_of_image, whole_image};
use vstd::prelude::*;

verus! {

proof fn lemma_parse_layers_len(b: Seq<u8>, p: int, version: u32, w: u32, h: u32, i: nat, count: nat)
    requires
        i <= count,
    ensures
        parse_layers(b, p, version, w, h, i, count) matches Ok(ls) ==> ls.len() == count - i,
    decreases count - i,
{
    if i < count {
        match crate::project::parse_layer(b, p, version, w, h, i) {
            Err(e) => {},
            Ok(r) => {
                lemma_parse_layers_len(b, r.1, version, w, h, i + 1, count);
            },
        }
    }
}

/// A document read from a project file has a layer and an active one.
pub proof fn lemma_decoded_has_layers(b: Seq<u8>)
    ensures
        spec_decode(b) matches Ok(d) ==> d.layers.len() > 0 && d.active < d.layers.len(),
{
    match parse_header(b) {
        Err(e) => {},
        Ok(hd) => {
            lemma_parse_layers_len(b, 28, hd.version, hd.width, hd.height, 0, hd.count as nat);
        },
    }
}

/// The editor after `open_project(path, data)` read a document from the
/// project file's bytes `data`.
pub open spec fn spec_app_open_project(s0: AppView, path: Seq<char>, data: Seq<u8>) -> AppView {
    let s = spec_end_stroke(s0);
    match spec_decode(data) {
        Err(e) => s,
        Ok(d) => AppView {
            doc: d,
            history: fresh_history(),
            path: Some(path),
            path_kind: PathKind::Project,
            dirty: false,
            notice: Some("Открыто слоёв: "@ + decimal_text(d.layers.len())),
            ..s
        },
    }
}

/// A document of one layer, "Фон", holding the `w`×`h` image `rgba`.
pub open spec fn image_document(w: nat, h: nat, rgba: Seq<u8>) -> DocView {
    DocView {
        width: w,
        height: h,
        layers: seq![LayerView { pixels: rgba, ..blank_layer(w, h, "Фон"@) }],
        active: 0,
    }
}

/// Byte `k` of a `w`×`h` layer holding the `iw`×`ih` image `rgba` centred
/// (and cut where it does not fit); the rest is transparent.
pub open spec fn centred_byte(w: int, h: int, iw: int, ih: int, rgba: Seq<u8>, k: int) -> u8 {
    let ox = (w - iw) / 2;
    let oy = (h - ih) / 2;
    let sx = (k / 4) % w - if w >= iw { ox } else { -((iw - w) / 2) };
    let sy = (k / 4) / w - if h >= ih { oy } else { -((ih - h) / 2) };
    if 0 <= sx < iw && 0 <= sy < ih {
        rgba[(sy * iw + sx) * 4 + k % 4]
    } else {
        0
    }
}

/// The name of an imported layer: the file's stem, or "Слой" without one.
pub open spec fn import_name(stem: Option<Seq<char>>) -> Seq<char> {
    match stem {
        Some(s) => if s.len() > 0 {
            s
        } else {
            "Слой"@
        },
        None => "Слой"@,
    }
}

/// The editor after the `iw`×`ih` image `rgba` was imported as a new top
/// layer named after `stem`.
pub open spec fn spec_app_import_layer(
    s0: AppView,
    stem: Option<Seq<char>>,
    iw: nat,
    ih: nat,
    rgba: Seq<u8>,
) -> AppView {
    let s = spec_end_stroke(s0);
    let w = s.doc.width;
    let h = s.doc.height;
    let n = s.doc.layers.len();
    let layer = LayerView {
        meta: MetaView { name: import_name(stem), ..blank_layer(w, h, "Слой"@).meta },
        pixels: Seq::new(w * h * 4, |k: int| centred_byte(w as int, h as int, iw as int, ih as int, rgba, k)),
        ..blank_layer(w, h, "Слой"@)
    };
    AppView {
        doc: DocView { layers: s.doc.layers.push(layer), active: n, ..s.doc },
        history: spec_push(s.history, StepView { name: "Импорт слоя"@, action: ActionView::LayerAdd { index: n } }),
        dirty: true,
        notice: Some("Импортирован слой "@ + size_text(iw, ih)),
        ..s
    }
}

/// What `Path::file_stem` gives for a path (as text), by the rules of the
/// platform the crate is built for.
pub uninterp spec fn stem_of(path: Seq<char>) -> Option<Seq<char>>;

/// `Path::file_stem`: the last part of a path without its extension.
#[verifier::external_body]
fn file_stem(path: &str) -> (r: Option<String>)
    ensures
        crate::editor::opt_text_view(r) == stem_of(path@),
{
    std::path::Path::new(path).file_stem().map(|s| s.to_string_lossy().into_owned())
}

impl App {
    /// Puts the document read from the project file's bytes `data` in
    /// place (see `spec_app_open_project`); the history starts over.
    pub fn open_project(&mut self, path: &str, data: &[u8]) -> (r: Result<(), ProjectError>)
        requires
            old(self).wf(),
        ensures
            final(self).wf(),
            final(self)@ == spec_app_open_project(old(self)@, path@, data@),
            r matches Err(e) ==> spec_decode(data@) == Err::<DocView, ProjectError>(e),
            r is Ok <==> spec_decode(data@) is Ok,
    {
        self.end_stroke();
        proof {
            lemma_decoded_has_layers(data@);
        }
        let doc = match decode(data) {
            Ok(d) => d,
            Err(e) => {
                return Err(e);
            },
        };
        let n = doc.layers.len();
        self.doc = doc;
        self.history = History::new(40);
        self.path = Some(path.to_owned());
        self.path_kind = PathKind::Project;
        self.dirty = false;
        let mut m = "Открыто слоёв: ".to_owned();
        m.append(decimal_string(n).as_str());
        self.notice = Some(m);
        assert(self.history@.steps =~= fresh_history().steps);
        assert(self.history@.undone =~= fresh_history().undone);
        Ok(())
    }

    /// Opens the flat image file `path`, whose bytes are `bytes`, as a
    /// document of one layer: the `image` crate decodes it in the format
    /// that the extension names (`rgba_of_image`), and the picture becomes
    /// what `open_png` makes of it. A file that does not decode, or a
    /// picture too large for memory, is refused and nothing changes.
    pub fn open_image(&mut self, path: &str, bytes: &[u8]) -> (r: Result<(), String>)
        requires
            old(self).wf(),
        ensures
            final(self).wf(),
            r is Ok <==> (rgba_of_image(path@, bytes@) matches Some(t) && whole_image(t.0, t.1, 4, t.2)),
            r is Ok ==> final(self)@ == (AppView {
                doc: image_document(
                    rgba_of_image(path@, bytes@)->Some_0.0 as nat,
                    rgba_of_image(path@, bytes@)->Some_0.1 as nat,
                    rgba_of_image(path@, bytes@)->Some_0.2,
                ),
                history: fresh_history(),
                path: Some(path@),
                path_kind: PathKind::Image,
                dirty: false,
                ..old(self)@
            }),
            r is Err ==> final(self)@ == old(self)@,
            (rgba_of_image(path@, bytes@) matches Some(t) && !whole_image(t.0, t.1, 4, t.2)) ==> (r matches Err(m)
                && m@ == "изображение слишком велико"@),
    {
        let (w, h, px) = match decode_image_rgba(path, bytes) {
            Ok(t) => t,
            Err(e) => {
                return Err(image_error_text(e));
            },
        };
        if !is_whole_image(w, h, 4, &px) {
            return Err("изображение слишком велико".to_owned());
        }
        self.open_png(path, w as usize, h as usize, px);
        Ok(())
    }

    /// Imports the flat image file `path`, whose bytes are `bytes`, as a new
    /// top layer: the `image` crate decodes it in the format that the
    /// extension names (`rgba_of_image`), and the picture is put in place as
    /// `import_layer` does. A file that does not decode, a picture too large
    /// for memory or an empty one is refused, and only the stroke in
    /// progress is ended.
    pub fn import_image(&mut self, path: &str, bytes: &[u8]) -> (r: Result<(), String>)
        requires
            old(self).wf(),
            old(self).doc.layers@.len() + 1 < usize::MAX,
        ensures
            final(self).wf(),
            final(self)@.doc != old(self)@.doc ==> final(self).doc.rev != old(self).doc.rev,
            r is Ok <==> (rgba_of_image(path@, bytes@) matches Some(t) && whole_image(t.0, t.1, 4, t.2) && t.0
                > 0 && t.1 > 0),
            r is Ok ==> final(self)@ == spec_app_import_layer(
                old(self)@,
                stem_of(path@),
                rgba_of_image(path@, bytes@)->Some_0.0 as nat,
                rgba_of_image(path@, bytes@)->Some_0.1 as nat,
                rgba_of_image(path@, bytes@)->Some_0.2,
            ),
            r is Err ==> final(self)@ == spec_end_stroke(old(self)@),
            (rgba_of_image(path@, bytes@) matches Some(t) && !whole_image(t.0, t.1, 4, t.2)) ==> (r matches Err(m)
                && m@ == "изображение слишком велико"@),
            (rgba_of_image(path@, bytes@) matches Some(t) && whole_image(t.0, t.1, 4, t.2) && (t.0 == 0 || t.1
                == 0)) ==> (r matches Err(m) && m@ == "пустое изображение"@),
    {
        let (w, h, px) = match decode_image_rgba(path, bytes) {
            Ok(t) => t,
            Err(e) => {
                self.end_stroke();
                return Err(image_error_text(e));
            },
        };
        if !is_whole_image(w, h, 4, &px) {
            self.end_stroke();
            return Err("изображение слишком велико".to_owned());
        }
        self.import_layer(path, w as usize, h as usize, px.as_slice())
    }

    /// Opens the `w`×`h` image `rgba` (RGBA8) as a document of one layer,
    /// "Фон"; the history starts over.
    pub fn open_png(&mut self, path: &str, w: usize, h: usize, rgba: Vec<u8>)
        requires
            old(self).wf(),
            w * h * 4 <= usize::MAX,
            rgba@.len() == w * h * 4,
        ensures
            final(self).wf(),
            final(self)@ == (AppView {
                doc: image_document(w as nat, h as nat, rgba@),
                history: fresh_history(),
                path: Some(path@),
                path_kind: PathKind::Image,
                dirty: false,
                ..old(self)@
            }),
    {
        let ghost pv = rgba@;
        let mut doc = Document::new(w, h);
        assert(doc@.layers.len() == 1);
        let ghost l0 = doc@.layers[0];
        let mut l = doc.layers.remove(0);
        assert(l@ == l0);
        l.pixels = rgba;
        doc.layers.insert(0, l);
        doc.touch();
        assert(doc@.layers =~= image_document(w as nat, h as nat, pv).layers);
        self.doc = doc;
        self.history = History::new(40);
        self.path = Some(path.to_owned());
        self.path_kind = PathKind::Image;
        self.dirty = false;
        assert(self.history@.steps =~= fresh_history().steps);
        assert(self.history@.undone =~= fresh_history().undone);
    }

    /// Imports the `iw`×`ih` image `rgba` (RGBA8) read from `path` as a new
    /// top layer, centred on the canvas and named after the file; an empty
    /// image is refused. The name is the file's stem (`stem_of`).
    pub fn import_layer(&mut self, path: &str, iw: usize, ih: usize, rgba: &[u8]) -> (r: Result<(), String>)
        requires
            old(self).wf(),
            old(self).doc.layers@.len() + 1 < usize::MAX,
            rgba@.len() == iw * ih * 4,
        ensures
            final(self).wf(),
            final(self)@.doc != old(self)@.doc ==> final(self).doc.rev != old(self).doc.rev,
            iw == 0 || ih == 0 ==> (r matches Err(m) && m@ == "пустое изображение"@ && final(self)@
                == spec_end_stroke(old(self)@)),
            !(iw == 0 || ih == 0) ==> r is Ok && final(self)@ == spec_app_import_layer(
                old(self)@,
                stem_of(path@),
                iw as nat,
                ih as nat,
                rgba@,
            ),
    {
        let stem = file_stem(path);
        let r = self.import_layer_named(stem, iw, ih, rgba);
        r
    }

    /// Imports the `iw`×`ih` image `rgba` as a new top layer named `stem`
    /// (see `spec_app_import_layer`); an empty image is refused.
    pub fn import_layer_named(&mut self, stem: Option<String>, iw: usize, ih: usize, rgba: &[u8]) -> (r: Result<(), String>)
        requires
            old(self).wf(),
            old(self).doc.layers@.len() + 1 < usize::MAX,
            rgba@.len() == iw * ih * 4,
        ensures
            final(self).wf(),
            final(self)@.doc != old(self)@.doc ==> final(self).doc.rev != old(self).doc.rev,
            iw == 0 || ih == 0 ==> (r matches Err(m) && m@ == "пустое изображение"@ && final(self)@
                == spec_end_stroke(old(self)@)),
            !(iw == 0 || ih == 0) ==> r is Ok && final(self)@ == spec_app_import_layer(
                old(self)@,
                crate::editor::opt_text_view(stem),
                iw as nat,
                ih as nat,
                rgba@,
            ),
    {
        self.end_stroke();
        if iw == 0 || ih == 0 {
            return Err("пустое изображение".to_owned());
        }
        let w = self.doc.width;
        let h = self.doc.height;
        let ghost s = self@;
        let mut layer = Layer::new(w, h, "Слой");
        let ghost blank = layer@;
        let mut pixels: Vec<u8> = Vec::new();
        let n = w * h * 4;
        let ox: usize = if w >= iw {
            (w - iw) / 2
        } else {
            (iw - w) / 2
        };
        let oy: usize = if h >= ih {
            (h - ih) / 2
        } else {
            (ih - h) / 2
        };
        let mut k: usize = 0;
        let rl = rgba.len();
        while k < n
            invariant
                n == w * h * 4,
                rl == rgba@.len(),
                w * h * 4 <= usize::MAX,
                rgba@.len() == iw * ih * 4,
                iw > 0,
                ih > 0,
                ox == if w >= iw { (w - iw) / 2 } else { (iw - w) / 2 },
                oy == if h >= ih { (h - ih) / 2 } else { (ih - h) / 2 },
                k <= n,
                pixels@ == Seq::new(k as nat, |j: int| centred_byte(w as int, h as int, iw as int, ih as int, rgba@, j)),
            decreases n - k,
        {
            let px = k / 4;
            let x = px % w;
            let y = px / w;
            proof {
                assert(w > 0);
                assert(h > 0) by (nonlinear_arith)
                    requires
                        k < w * h * 4,
                ;
                vstd::arithmetic::div_mod::lemma_fundamental_div_mod(px as int, w as int);
                assert(y < h) by (nonlinear_arith)
                    requires
                        px == w * y + x,
                        px < w * h,
                        x >= 0,
                ;
            }
            let sx: Option<usize> = if w >= iw {
                if x >= ox && x - ox < iw {
                    Some(x - ox)
                } else {
                    None
                }
            } else {
                if x + ox < iw {
                    Some(x + ox)
                } else {
                    None
                }
            };
            let sy: Option<usize> = if h >= ih {
                if y >= oy && y - oy < ih {
                    Some(y - oy)
                } else {
                    None
                }
            } else {
                if y + oy < ih {
                    Some(y + oy)
                } else {
                    None
                }
            };
            let v: u8 = match (sx, sy) {
                (Some(a), Some(b)) => {
                    assert((b * iw + a) * 4 + 3 < iw * ih * 4) by (nonlinear_arith)
                        requires
                            a < iw,
                            b < ih,
                    ;
                    rgba[(b * iw + a) * 4 + k % 4]
                },
                _ => 0,
            };
            pixels.push(v);
            assert(pixels@ =~= Seq::new(
                (k + 1) as nat,
                |j: int| centred_byte(w as int, h as int, iw as int, ih as int, rgba@, j),
            ));
            k = k + 1;
        }
        layer.pixels = pixels;
        let name = match stem {
            Some(t) => if t.unicode_len() > 0 {
                t
            } else {
                "Слой".to_owned()
            },
            None => "Слой".to_owned(),
        };
        layer.meta.name = name;
        let ghost lv = layer@;
        assert(lv == LayerView {
            meta: MetaView { name: import_name(crate::editor::opt_text_view(stem)), ..blank_layer(w as nat, h as nat, "Слой"@).meta },
            pixels: Seq::new(
                (w * h * 4) as nat,
                |j: int| centred_byte(w as int, h as int, iw as int, ih as int, rgba@, j),
            ),
            ..blank_layer(w as nat, h as nat, "Слой"@)
        });
        let idx = self.doc.layers.len();
        let ghost d = self.doc@;
        self.doc.layers.push(layer);
        self.doc.active = idx;
        assert(self.doc@.layers =~= d.layers.push(lv));
        let act = Action::LayerAdd { index: idx };
        proof {
            lemma_ok_push(s.history, StepView { name: "Импорт слоя"@, action: act@ });
        }
        self.history.push("Импорт слоя", act);
        self.doc.touch();
        self.dirty = true;
        let mut m = "Импортирован слой ".to_owned();
        m.append(decimal_string(iw).as_str());
        m.append("×");
        m.append(decimal_string(ih).as_str());
        assert(m@ =~= "Импортирован слой "@ + size_text(iw as nat, ih as nat));
        self.notice = Some(m);
        Ok(())
    }

    /// The bytes of the document as a project file, after ending the
    /// stroke in progress (see `spec_encode`).
    pub fn project_bytes(&mut self) -> (r: Result<Vec<u8>, ProjectError>)
        requires
            old(self).wf(),
        ensures
            final(self).wf(),
            final(self)@.doc != old(self)@.doc ==> final(self).doc.rev != old(self).doc.rev,
            final(self)@ == spec_end_stroke(old(self)@),
            match spec_encode(final(self)@.doc) {
                Ok(b) => r matches Ok(v) && v@ == b,
                Err(e) => r == Err::<Vec<u8>, ProjectError>(e),
            },
    {
        self.end_stroke();
        encode(&self.doc)
    }

    /// Records that the document was written to `path` as `kind`: nothing
    /// is left unsaved.
    pub fn mark_saved(&mut self, path: &str, kind: PathKind)
        ensures
            final(self)@ == (AppView { path: Some(path@), path_kind: kind, dirty: false, ..old(self)@ }),
            final(self).doc == old(self).doc,
            final(self).history == old(self).history,
    {
        self.path = Some(path.to_owned());
        self.path_kind = kind;
        self.dirty = false;
    }
}

} // verus!
