use tpaint::doc::{BlendMode, Document, Layer};
use tpaint::project::{decode, encode, ProjectError, MAGIC};

#[test]
fn project_round_trip_keeps_layers_and_pixels() {
    let mut doc = Document::new(24, 16);
    doc.layers[0].meta.name = "Фон".to_string();
    doc.layers[0].meta.opacity = 1.0f32.to_bits();
    for x in 0..24 {
        doc.layers[0].pixels[(x * 4) as usize] = 200;
        doc.layers[0].pixels[(x * 4 + 1) as usize] = 100;
    }
    let mut top = Layer::new(24, 16, "Верх");
    top.meta.opacity = 0.42f32.to_bits();
    top.meta.blend = BlendMode::Multiply;
    top.meta.visible = false;
    top.pixels[4] = 7;
    doc.layers.push(top);
    doc.active = 1;
    doc.touch();

    let bytes = encode(&doc).expect("written");
    let back = decode(&bytes).expect("read");

    assert_eq!((back.width, back.height), (24, 16));
    assert_eq!(back.layers.len(), 2);
    assert_eq!(back.active, 1);
    assert_eq!(back.layers[0].meta.name, "Фон");
    assert_eq!(back.layers[0].pixels[8], 200);
    assert_eq!(back.layers[0].pixels[9], 100);
    assert_eq!(back.layers[0].pixels[11], 0);
    assert_eq!(back.layers[1].meta.name, "Верх");
    assert!((f32::from_bits(back.layers[1].meta.opacity) - 0.42).abs() < 0.001);
    assert_eq!(back.layers[1].meta.blend, BlendMode::Multiply);
    assert!(!back.layers[1].meta.visible);
    assert_eq!(back.layers[1].pixels[4], 7);
}

#[test]
fn foreign_file_is_rejected() {
    let err = match decode(b"not a tpaint file at all") {
        Ok(_) => panic!("a foreign file must not open"),
        Err(e) => e,
    };
    assert_eq!(err, ProjectError::NotProject);
}

#[test]
fn truncated_file_is_rejected() {
    let mut doc = Document::new(8, 8);
    doc.layers[0].meta.name = "Фон".to_string();
    let mut data = encode(&doc).expect("written");
    data.truncate(data.len() / 2);
    assert!(decode(&data).is_err(), "a cut file is refused");
    assert_eq!(decode(&data[..20]).err(), Some(ProjectError::Truncated));
}

#[test]
fn transparent_layer_stays_transparent() {
    let mut doc = Document::new(8, 8);
    doc.layers[0].pixels.fill(0);
    let back = decode(&encode(&doc).expect("written")).expect("read");
    assert!(back.layers[0].pixels.iter().all(|v| *v == 0));
}

#[test]
fn masks_and_folders_survive() {
    let mut doc = Document::new(4, 3);
    doc.layers[0].mask = Some(vec![9; 12]);
    doc.layers[0].mask_on = false;
    doc.layers[0].meta.group = Some("Папка".to_string());
    doc.layers[0].meta.group_open = false;
    doc.layers[0].meta.locked = true;
    let back = decode(&encode(&doc).expect("written")).expect("read");
    let l = &back.layers[0];
    assert_eq!(l.mask.as_ref().map(|m| m.len()), Some(12));
    assert_eq!(l.mask.as_ref().unwrap()[7], 9);
    assert!(!l.mask_on);
    assert_eq!(l.meta.group.as_deref(), Some("Папка"));
    assert!(!l.meta.group_open);
    assert!(l.meta.locked);
    assert_eq!(back.rev, 1);
    assert_eq!(back.composite.len(), 4 * 3 * 4);
}

fn header(version: u32, w: u32, h: u32, n: u32, active: u32) -> Vec<u8> {
    let mut out = MAGIC.to_vec();
    for v in [version, w, h, n, active] {
        out.extend_from_slice(&v.to_le_bytes());
    }
    out
}

#[test]
fn header_errors_are_told_apart() {
    assert_eq!(decode(&header(4, 1, 1, 1, 0)).err(), Some(ProjectError::Newer(4)));
    assert_eq!(decode(&header(3, 0, 5, 1, 0)).err(), Some(ProjectError::CanvasSize(0, 5)));
    assert_eq!(decode(&header(3, 40000, 5, 1, 0)).err(), Some(ProjectError::CanvasSize(40000, 5)));
    assert_eq!(decode(&header(3, 5, 5, 0, 0)).err(), Some(ProjectError::LayerCount(0)));
    assert_eq!(decode(&header(3, 5, 5, 513, 0)).err(), Some(ProjectError::LayerCount(513)));
    assert_eq!(decode(&header(3, 5, 5, 1, 0)).err(), Some(ProjectError::Truncated));
    let mut long_name = header(3, 5, 5, 1, 0);
    long_name.extend_from_slice(&5000u32.to_le_bytes());
    assert_eq!(decode(&long_name).err(), Some(ProjectError::LayerName));
    let mut bad_utf8 = header(3, 5, 5, 1, 0);
    bad_utf8.extend_from_slice(&1u32.to_le_bytes());
    bad_utf8.push(0xFF);
    bad_utf8.extend_from_slice(&[0u8; 14]);
    assert_eq!(decode(&bad_utf8).err(), Some(ProjectError::NameNotUtf8));
    let mut bad_png = header(3, 5, 5, 1, 0);
    bad_png.extend_from_slice(&0u32.to_le_bytes());
    bad_png.extend_from_slice(&[1, 0]);
    bad_png.extend_from_slice(&1.0f32.to_bits().to_le_bytes());
    bad_png.extend_from_slice(&0u32.to_le_bytes());
    bad_png.extend_from_slice(&3u32.to_le_bytes());
    bad_png.extend_from_slice(&[1, 2, 3]);
    assert_eq!(decode(&bad_png).err(), Some(ProjectError::BrokenLayer(0)));
}

#[test]
fn opacity_and_active_layer_are_held_in_range() {
    let mut doc = Document::new(2, 2);
    doc.layers[0].meta.opacity = 3.5f32.to_bits();
    doc.active = 0;
    let mut bytes = encode(&doc).expect("written");
    bytes[24] = 9;
    let back = decode(&bytes).expect("read");
    assert_eq!(f32::from_bits(back.layers[0].meta.opacity), 1.0);
    assert_eq!(back.active, 0, "an active index past the end points at the top layer");
}

#[test]
fn short_layer_pixels_are_not_written() {
    let mut doc = Document::new(2, 2);
    doc.layers[0].pixels.truncate(8);
    assert_eq!(encode(&doc).err(), Some(ProjectError::LayerPixels(0)));
    let mut doc = Document::new(2, 2);
    doc.layers[0].mask = Some(vec![1; 3]);
    assert_eq!(encode(&doc).err(), Some(ProjectError::MaskPixels(0)));
}

#[test]
fn blend_modes_outside_the_editor_are_saved_as_normal() {
    let mut doc = Document::new(2, 2);
    doc.layers[0].meta.blend = BlendMode::Darken;
    let mut top = Layer::new(2, 2, "Верх");
    top.meta.blend = BlendMode::Screen;
    doc.layers.push(top);
    let back = decode(&encode(&doc).expect("written")).expect("read");
    assert_eq!(back.layers[0].meta.blend, BlendMode::Normal);
    assert_eq!(back.layers[1].meta.blend, BlendMode::Screen);
}

#[test]
fn errors_are_told_in_words() {
    assert!(ProjectError::NotProject.message().contains("не файл проекта"));
    assert_eq!(
        ProjectError::Newer(4).message(),
        "файл сохранён более новой версией Tpaint (4 > 3)"
    );
    assert_eq!(ProjectError::CanvasSize(40000, 5).message(), "неверный размер холста 40000×5");
    assert_eq!(ProjectError::LayerCount(0).message(), "неверное число слоёв: 0");
    assert_eq!(
        ProjectError::MaskSize(12).message(),
        "размер маски слоя 12 не совпадает с холстом"
    );
    assert_eq!(ProjectError::Truncated.message(), "файл проекта обрезан");
}
