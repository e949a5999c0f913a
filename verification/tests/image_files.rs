use tpaint::app::{App, PathKind};
use tpaint::canvas::Canvas;
use tpaint::commands::is_project_path;
use tpaint::image_files::{add_opaque_alpha, image_bytes, jpeg_bytes};
use tpaint::tools::Tool;

/// An editor on a transparent canvas of `w`×`h`, with the selection tool.
fn app_with_blank(w: usize, h: usize) -> App {
    let mut app = App::new();
    app.doc.resize(w, h);
    let a = app.doc.active;
    app.doc.layers[a].pixels.iter_mut().for_each(|v| *v = 0);
    app.tool = Tool::Select;
    app
}

fn red_square_png(side: usize) -> Vec<u8> {
    let mut rgba = Vec::new();
    for _ in 0..side * side {
        rgba.extend_from_slice(&[255, 0, 0, 255]);
    }
    image_bytes("square.png", side, side, &rgba).expect("png written")
}

#[test]
fn import_image_adds_new_layer_centered() {
    let bytes = red_square_png(10);
    let mut app = app_with_blank(40, 40);
    app.import_image("/tmp/import.png", &bytes).expect("imported");
    assert_eq!(app.doc.layers.len(), 2, "a new layer is added");
    assert_eq!(app.doc.active, 1, "the new layer is active");
    assert!(app.doc.layers[1].meta.name.ends_with("import"), "named after the file: {}", app.doc.layers[1].meta.name);
    assert_eq!(app.doc.active_layer().get(40, 20, 20), [255, 0, 0, 255], "the picture's centre is in place");
    assert_eq!(app.doc.active_layer().get(40, 2, 2)[3], 0, "the canvas edges stay empty");
    assert!(app.dirty, "importing changes the document");
}

#[test]
fn export_png_and_jpeg_write_readable_files() {
    let mut rgba = Vec::new();
    for _ in 0..16 * 16 {
        rgba.extend_from_slice(&[255, 0, 0, 255]);
    }
    let png = image_bytes("export.png", 16, 16, &rgba).expect("PNG export");
    let rgb: Vec<u8> = rgba.chunks(4).flat_map(|p| [p[0], p[1], p[2]]).collect();
    let jpg = jpeg_bytes(16, 16, &rgb, 90).expect("JPEG export");
    assert_eq!(&png[..4], &[0x89, b'P', b'N', b'G'], "this must be a PNG");
    assert_eq!(&jpg[..3], &[0xFF, 0xD8, 0xFF], "this must be a JPEG");
    let mut app = App::new();
    app.open_image("export.png", &png).expect("the PNG opens");
    assert_eq!((app.doc.width, app.doc.height), (16, 16));
    let mut c = Canvas::new(1, 1);
    c.load_image("export.jpg", &jpg).expect("the JPEG opens");
    assert_eq!((c.width, c.height), (16, 16));
}

#[test]
fn opened_image_becomes_one_background_layer() {
    let mut rgba = Vec::new();
    for i in 0..3 * 2 {
        rgba.extend_from_slice(&[i as u8, 10, 20, 200]);
    }
    let png = image_bytes("a.png", 3, 2, &rgba).expect("written");
    let mut app = app_with_blank(5, 5);
    app.open_image("/pictures/a.png", &png).expect("opened");
    assert_eq!((app.doc.width, app.doc.height), (3, 2));
    assert_eq!(app.doc.layers.len(), 1);
    assert_eq!(app.doc.layers[0].meta.name, "Фон");
    assert_eq!(app.doc.layers[0].pixels, rgba, "PNG keeps every byte");
    assert_eq!(app.path.as_deref(), Some("/pictures/a.png"));
    assert_eq!(app.path_kind, PathKind::Image);
    assert!(!app.dirty);
}

#[test]
fn files_that_do_not_decode_change_nothing() {
    let mut app = app_with_blank(5, 5);
    assert!(app.open_image("x.png", b"not a picture").is_err());
    assert_eq!((app.doc.width, app.doc.height), (5, 5));
    assert!(app.path.is_none());
    let png = red_square_png(2);
    assert!(app.open_image("x.unknown", &png).is_err(), "the extension names the format");
    assert!(app.import_image("x.png", &[1, 2, 3]).is_err());
    assert_eq!(app.doc.layers.len(), 1);
    let mut c = Canvas::new(3, 2);
    let before = c.buf.clone();
    assert!(c.load_image("x.png", b"garbage").is_err());
    assert_eq!((c.width, c.height), (3, 2));
    assert_eq!(c.buf, before);
}

#[test]
fn canvas_round_trips_through_a_png() {
    let mut c = Canvas::new(3, 2);
    for (i, v) in c.buf.iter_mut().enumerate() {
        let (a, b) = (i as u32 * 40, i as u32 * 7);
        *v = a | (b << 8) | (a << 16);
    }
    let png = c.image_bytes("c.png").expect("written");
    let mut d = Canvas::new(1, 1);
    d.load_image("c.png", &png).expect("read");
    assert_eq!((d.width, d.height), (3, 2));
    assert_eq!(d.buf, c.buf);
}

#[test]
fn wrong_sizes_are_refused_in_words() {
    assert_eq!(image_bytes("a.png", 2, 2, &[0; 15]), Err("неверный размер".to_string()));
    assert_eq!(jpeg_bytes(2, 2, &[0; 13], 50), Err("неверный размер".to_string()));
    assert!(jpeg_bytes(2, 2, &[0; 12], 0).is_ok(), "quality 0 is taken as 1");
}

#[test]
fn opaque_alpha_is_added_to_each_pixel() {
    assert_eq!(add_opaque_alpha(&[1, 2, 3, 4, 5, 6, 7]), vec![1, 2, 3, 255, 4, 5, 6, 255]);
    assert_eq!(add_opaque_alpha(&[]), Vec::<u8>::new());
}

#[test]
fn project_files_are_told_by_their_extension() {
    assert!(is_project_path("рисунок.tpaint"));
    assert!(is_project_path("C:\\Work\\A.TPAINT"));
    assert!(!is_project_path("a.png"));
    assert!(!is_project_path("tpaint"));
}

#[test]
fn layers_move_only_within_the_stack() {
    let mut app = app_with_blank(2, 2);
    app.add_layer();
    assert_eq!(app.doc.active, 1);
    app.layer_up();
    assert_eq!(app.doc.active, 1, "the top layer stays on top");
    app.layer_down();
    assert_eq!(app.doc.active, 0);
    app.layer_down();
    assert_eq!(app.doc.active, 0, "the bottom layer stays at the bottom");
}

#[test]
fn delete_without_selection_clears_the_layer() {
    let mut app = app_with_blank(2, 2);
    app.doc.layers[0].pixels = vec![9; 16];
    app.delete_or_clear(None);
    assert!(app.doc.layers[0].pixels.iter().all(|v| *v == 0));
}

#[test]
fn mask_editing_needs_a_mask() {
    let mut app = app_with_blank(2, 2);
    app.toggle_edit_mask();
    assert!(!app.edit_mask);
    assert_eq!(app.notice.as_deref(), Some("Сначала добавьте маску"));
    app.doc.layers[0].mask = Some(vec![255; 4]);
    app.toggle_edit_mask();
    assert!(app.edit_mask);
    app.toggle_edit_mask();
    assert!(!app.edit_mask);
}
