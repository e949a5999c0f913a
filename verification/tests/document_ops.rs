use tpaint::doc::{Action, BlendMode, Document, History, Layer, OPACITY_ONE};

fn doc_white(w: usize, h: usize) -> Document {
    let mut d = Document::new(w, h);
    d.layers[0].fill([255, 255, 255, 255]);
    d.touch();
    d
}

#[test]
fn resize_preserves_content() {
    let mut d = doc_white(10, 10);
    d.layers[0].set(10, 2, 3, [255, 0, 0, 255]);
    d.resize(20, 20);
    assert_eq!(d.layers[0].pixels.len(), 20 * 20 * 4);
    assert_eq!(d.layers[0].get(20, 2, 3), [255, 0, 0, 255]);
    assert_eq!(d.layers[0].get(20, 15, 15), [0, 0, 0, 0], "new pixels are transparent");
}

#[test]
fn layer_operations_keep_history_shape() {
    let mut d = doc_white(4, 4);
    let i = d.add_layer("a");
    assert_eq!(i, 1);
    let removed = d.delete_layer(1).expect("layer removed");
    assert_eq!(removed.meta.name, "a");
    assert_eq!(d.layers.len(), 1);
    assert!(d.delete_layer(0).is_none());
}

#[test]
fn crop_moves_content_and_drops_the_rest() {
    let mut d = doc_white(10, 8);
    d.layers[0].set(10, 5, 2, [255, 0, 0, 255]);
    d.crop(4, 1, 4, 4);
    assert_eq!((d.width, d.height), (4, 4));
    assert_eq!(d.layers[0].get(4, 1, 1), [255, 0, 0, 255]);
    assert_eq!(d.layers[0].pixels.len(), 4 * 4 * 4);
}

#[test]
fn crop_clamps_to_canvas() {
    let mut d = doc_white(10, 10);
    d.crop(8, 8, 100, 100);
    assert_eq!((d.width, d.height), (2, 2));
    d.crop(0, 0, 0, 0);
    assert_eq!((d.width, d.height), (1, 1));
}

#[test]
fn content_bounds_covers_visible_layers() {
    let mut d = Document::new(20, 20);
    let top = d.add_layer("верх");
    d.layers[top].set(20, 5, 6, [0, 255, 0, 255]);
    d.layers[top].set(20, 9, 11, [0, 255, 0, 255]);
    let b = d.content_bounds().expect("has content");
    assert_eq!(b, (5, 6, 5, 6), "bounds of the opaque part: {:?}", b);
    d.layers[top].meta.visible = false;
    d.layers[top].pixels.fill(0);
    assert!(d.content_bounds().is_none());
    d.layers[top].meta.visible = true;
    d.layers[top].set(20, 1, 1, [0, 0, 255, 255]);
    assert_eq!(d.content_bounds().unwrap(), (1, 1, 1, 1));
}

#[test]
fn content_bounds_is_empty_for_blank_document() {
    let d = Document::new(10, 10);
    assert!(d.content_bounds().is_none());
}

#[test]
fn content_bounds_skips_layers_of_zero_opacity() {
    let mut d = Document::new(5, 5);
    d.layers[0].set(5, 2, 2, [1, 1, 1, 255]);
    d.layers[0].meta.opacity = 0;
    assert!(d.content_bounds().is_none());
    d.layers[0].meta.opacity = 0.25f32.to_bits();
    assert_eq!(d.content_bounds(), Some((2, 2, 1, 1)));
    d.layers[0].meta.opacity = (-0.5f32).to_bits();
    assert!(d.content_bounds().is_none());
}

#[test]
fn flip_layer_mirrors_pixels() {
    let mut d = doc_white(4, 1);
    d.layers[0].pixels.fill(0);
    d.layers[0].set(4, 0, 0, [10, 0, 0, 255]);
    d.flip_layer(0, true);
    assert_eq!(d.layers[0].get(4, 3, 0), [10, 0, 0, 255]);
    d.flip_layer(0, true);
    assert_eq!(d.layers[0].get(4, 0, 0), [10, 0, 0, 255]);
}

#[test]
fn history_goto_rewinds_and_replays() {
    let mut d = doc_white(4, 4);
    let mut h = History::new(10);
    for i in 0..3u8 {
        let before = d.layers[0].pixels.clone();
        d.layers[0].set(4, i as usize, 0, [i * 40, 0, 0, 255]);
        let after = d.layers[0].pixels.clone();
        h.push("мазок", Action::Pixels { layer: 0, before, after });
    }
    assert_eq!(h.position(), 3);
    let steps = h.goto(0);
    assert_eq!(steps.len(), 3);
    assert!(steps.iter().all(|(_, forward)| !forward));
    assert_eq!(h.position(), 0);
    assert!(h.can_redo());
    let steps = h.goto(2);
    assert_eq!(steps.len(), 2);
    assert!(steps.iter().all(|(_, forward)| *forward));
    assert_eq!(h.position(), 2);
}

#[test]
fn history_keeps_names_and_limit() {
    let d = doc_white(2, 2);
    let mut h = History::new(2);
    let before = d.layers[0].pixels.clone();
    h.push("Мазок", Action::Pixels { layer: 0, before: before.clone(), after: before });
    h.push("Слой", Action::LayerAdd { index: 1 });
    h.push("Слой", Action::LayerAdd { index: 2 });
    assert_eq!(h.steps.len(), 2);
    assert_eq!(h.steps[0].name, "Слой");
    h.undo();
    assert!(h.can_redo());
    h.push("Новое", Action::LayerAdd { index: 3 });
    assert!(!h.can_redo());
}

#[test]
fn rotate_document_turns_pixels_and_swaps_size() {
    let mut d = Document::new(4, 2);
    d.layers[0].pixels.fill(0);
    d.layers[0].set(4, 0, 0, [255, 0, 0, 255]);
    d.rotate(1);
    assert_eq!((d.width, d.height), (2, 4));
    assert_eq!(d.layers[0].get(2, 1, 0), [255, 0, 0, 255]);
    d.rotate(3);
    assert_eq!((d.width, d.height), (4, 2));
    assert_eq!(d.layers[0].get(4, 0, 0), [255, 0, 0, 255]);
}

#[test]
fn rotate_document_four_times_is_identity() {
    let mut d = doc_white(3, 5);
    d.layers[0].set(3, 2, 4, [1, 2, 3, 255]);
    let before = d.layers[0].pixels.clone();
    for _ in 0..4 {
        d.rotate(1);
    }
    assert_eq!(d.layers[0].pixels, before);
    assert_eq!((d.width, d.height), (3, 5));
}

#[test]
fn rotate_by_negative_and_large_counts() {
    let mut d = Document::new(3, 2);
    d.layers[0].set(3, 0, 0, [7, 7, 7, 255]);
    let before = d.layers[0].pixels.clone();
    d.rotate(-1);
    assert_eq!((d.width, d.height), (2, 3));
    assert_eq!(d.layers[0].get(2, 0, 2), [7, 7, 7, 255]);
    d.rotate(5);
    assert_eq!(d.layers[0].pixels, before);
    d.rotate(8);
    assert_eq!(d.layers[0].pixels, before);
}

#[test]
fn mirror_document_moves_pixels() {
    let mut d = Document::new(4, 1);
    d.layers[0].pixels.fill(0);
    d.layers[0].set(4, 0, 0, [9, 9, 9, 255]);
    d.mirror(true);
    assert_eq!(d.layers[0].get(4, 3, 0), [9, 9, 9, 255]);
    d.mirror(true);
    assert_eq!(d.layers[0].get(4, 0, 0), [9, 9, 9, 255]);
}

#[test]
fn mask_survives_document_clone() {
    let mut d = doc_white(4, 4);
    d.layers[0].mask = Some(vec![7; 16]);
    d.layers[0].mask_on = false;
    let c = d.clone();
    assert_eq!(c.layers[0].mask.as_ref().unwrap()[5], 7);
    assert!(!c.layers[0].mask_on);
    let k = d.copy();
    assert_eq!(k.layers[0].mask.as_ref().unwrap()[5], 7);
    assert!(k.composite.is_empty(), "the copy's composite is redone later");
}

#[test]
fn history_can_be_disabled() {
    let mut h = History::new(0);
    h.push("Мазок", Action::LayerAdd { index: 0 });
    assert!(!h.can_undo());
}

#[test]
fn undo_then_redo_returns_the_same_step() {
    let mut h = History::new(5);
    h.push("a", Action::LayerMove { from: 0, to: 1 });
    h.push("b", Action::LayerAdd { index: 2 });
    let u = h.undo().expect("a step to undo");
    assert_eq!(u.name, "b");
    assert_eq!(h.position(), 1);
    let r = h.redo().expect("a step to redo");
    assert_eq!(r.name, "b");
    assert_eq!(h.position(), 2);
    assert!(!h.can_redo());
    assert!(h.redo().is_none());
    assert_eq!(h.goto(9).len(), 0, "nothing to redo past the end");
}

#[test]
fn layer_names_are_numbered_when_shared() {
    let mut d = Document::new(2, 2);
    d.add_layer("Фон");
    d.add_layer("Контур");
    assert_eq!(d.layer_name(0), "Фон 1");
    assert_eq!(d.layer_name(1), "Фон 2");
    assert_eq!(d.layer_name(2), "Контур");
    let j = d.duplicate_layer(2);
    assert_eq!(j, 3);
    assert_eq!(d.layers[3].meta.name, "Контур копия");
    assert_eq!(d.active, 3);
    d.move_layer(3, 0);
    assert_eq!(d.layers[0].meta.name, "Контур копия");
    assert_eq!(d.active, 0);
}

#[test]
fn layer_blend_mixes_by_alpha() {
    let mut l = Layer::new(1, 1, "x");
    assert_eq!(l.meta.opacity, OPACITY_ONE);
    assert_eq!(l.meta.blend, BlendMode::Normal);
    l.blend(1, 0, 0, [10, 20, 30, 0]);
    assert_eq!(l.get(1, 0, 0), [0, 0, 0, 0], "a transparent colour changes nothing");
    l.blend(1, 0, 0, [10, 20, 30, 128]);
    assert_eq!(l.get(1, 0, 0), [10, 20, 30, 128], "onto a transparent pixel");
    l.blend(1, 0, 0, [200, 0, 0, 128]);
    let p = l.get(1, 0, 0);
    assert_eq!(p[3] as u32, 128 + 128 * 127 / 255);
    assert_eq!(p[0], ((200u32 * 128 * 255 + 10 * 128 * 127) / (p[3] as u32 * 255)) as u8);
    l.blend(1, 0, 0, [1, 2, 3, 255]);
    assert_eq!(l.get(1, 0, 0), [1, 2, 3, 255]);
    l.set(1, 5, 0, [9, 9, 9, 9]);
    assert_eq!(l.get(1, 0, 0), [1, 2, 3, 255], "a column past the width is ignored");
}
