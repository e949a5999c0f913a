use tpaint::doc::BlendMode;
use tpaint::packbits::{packbits, unpackbits, UnpackError};
use tpaint::psd::{blend_key, blend_of, read, read_file, write_layers, LayerKind, OutLayer, PsdError};

#[test]
fn packbits_round_trip() {
    let cases: Vec<Vec<u8>> = vec![
        vec![1, 2, 3, 4, 5],
        vec![7; 300],
        vec![0, 0, 0, 1, 2, 0, 0, 0, 0, 9],
        (0..255u8).collect(),
        (0..1000u32).map(|i| (i % 7) as u8).collect(),
    ];
    for src in cases {
        let packed = packbits(&src);
        let back = unpackbits(&packed, src.len()).expect("unpacked");
        assert_eq!(back, src, "round trip of {} bytes", src.len());
    }
}

#[test]
fn packbits_never_exceeds_row_limit() {
    let src = vec![9u8; 128];
    let packed = packbits(&src);
    assert_eq!(packed.len(), 2, "repeat: code and value");
    assert_eq!(unpackbits(&packed, 128).unwrap(), src);
}

#[test]
fn packbits_encodes_runs_and_literals_exactly() {
    assert_eq!(packbits(&[]), Vec::<u8>::new());
    assert_eq!(packbits(&[5, 5, 5]), vec![254, 5]);
    assert_eq!(packbits(&[1, 2, 3]), vec![2, 1, 2, 3]);
    assert_eq!(packbits(&[1, 2, 2, 2]), vec![0, 1, 254, 2]);
    assert_eq!(packbits(&vec![4u8; 130]), vec![129, 4, 1, 4, 4]);
}

#[test]
fn unpackbits_reports_each_error() {
    assert_eq!(unpackbits(&[], 1), Err(UnpackError::Truncated));
    assert_eq!(unpackbits(&[2, 1], 3), Err(UnpackError::LiteralTooShort));
    assert_eq!(unpackbits(&[254], 3), Err(UnpackError::MissingRepeat));
    assert_eq!(unpackbits(&[128, 254, 7], 3), Ok(vec![7, 7, 7]));
    assert_eq!(unpackbits(&[1, 8, 9, 0, 0], 2), Ok(vec![8, 9]));
}

#[test]
fn psd_round_trip_keeps_pixels() {
    let (w, h) = (7, 5);
    let mut px = vec![0u8; w * h * 4];
    for y in 0..h {
        for x in 0..w {
            let i = (y * w + x) * 4;
            px[i] = (x * 30) as u8;
            px[i + 1] = (y * 50) as u8;
            px[i + 2] = 128;
            px[i + 3] = if (x + y) % 3 == 0 { 200 } else { 255 };
        }
    }
    let file = tpaint::psd::write(w, h, &px);
    assert_eq!(&file[0..4], b"8BPS");
    let img = read(&file).expect("own PSD reads back");
    assert_eq!((img.width, img.height), (w, h));
    assert_eq!(img.pixels, px);
}

#[test]
fn psd_reads_three_channels_as_opaque() {
    let (w, h) = (2, 2);
    let mut out: Vec<u8> = Vec::new();
    out.extend_from_slice(b"8BPS");
    out.extend_from_slice(&1u16.to_be_bytes());
    out.extend_from_slice(&[0u8; 6]);
    out.extend_from_slice(&3u16.to_be_bytes());
    out.extend_from_slice(&(h as u32).to_be_bytes());
    out.extend_from_slice(&(w as u32).to_be_bytes());
    out.extend_from_slice(&8u16.to_be_bytes());
    out.extend_from_slice(&3u16.to_be_bytes());
    out.extend_from_slice(&0u32.to_be_bytes());
    out.extend_from_slice(&0u32.to_be_bytes());
    out.extend_from_slice(&0u32.to_be_bytes());
    out.extend_from_slice(&0u16.to_be_bytes());
    for c in 0..3u8 {
        for i in 0..(w * h) {
            out.push(c * 60 + i as u8);
        }
    }
    let img = read(&out).expect("PSD without alpha reads");
    assert_eq!(&img.pixels[0..4], &[0, 60, 120, 255]);
    assert_eq!(&img.pixels[4..8], &[1, 61, 121, 255]);
}

#[test]
fn psd_rejects_foreign_and_broken_files() {
    assert!(read(b"not a psd at all........").is_err(), "foreign signature");
    assert!(read(b"8BPS").is_err(), "truncated file");
    let mut bad = tpaint::psd::write(2, 2, &[0u8; 16]);
    bad[23] = 1;
    assert!(read(&bad).is_err(), "depth is not 8");
}

#[test]
fn psd_errors_name_the_fault() {
    assert_eq!(read(b"not a psd at all........").err(), Some(PsdError::NotPsd));
    assert_eq!(read(b"8BPS").err(), Some(PsdError::Truncated));
    let mut bad = tpaint::psd::write(2, 2, &[0u8; 16]);
    bad[23] = 1;
    assert_eq!(read(&bad).err(), Some(PsdError::Depth(1)));
    let mut v2 = tpaint::psd::write(2, 2, &[0u8; 16]);
    v2[5] = 2;
    assert_eq!(read(&v2).err(), Some(PsdError::Version(2)));
}

fn flat(w: usize, h: usize, c: [u8; 4]) -> Vec<u8> {
    let mut px = vec![0u8; w * h * 4];
    for p in px.chunks_exact_mut(4) {
        p.copy_from_slice(&c);
    }
    px
}

#[test]
fn psd_layers_round_trip_with_names_and_settings() {
    let (w, h) = (6, 4);
    let top = flat(w, h, [255, 0, 0, 255]);
    let bottom = flat(w, h, [0, 0, 255, 128]);
    let mut mask = vec![255u8; w * h];
    for y in 0..2 {
        for x in 0..w {
            mask[y * w + x] = 40;
        }
    }
    let layers = vec![
        OutLayer {
            name: "Низ",
            rgba: &bottom,
            mask: Some(&mask),
            opacity: 128,
            visible: false,
            blend: BlendMode::Normal,
            group: None,
            group_header: false,
            group_open: true,
        },
        OutLayer {
            name: "Верх",
            rgba: &top,
            mask: None,
            opacity: 255,
            visible: true,
            blend: BlendMode::Multiply,
            group: None,
            group_header: false,
            group_open: true,
        },
    ];
    let merged = flat(w, h, [10, 20, 30, 255]);
    let file = write_layers(w, h, &merged, &layers);
    let back = read_file(&file).expect("own layered PSD reads back");
    assert_eq!((back.width, back.height), (w, h));
    assert_eq!(back.merged.pixels, merged);
    assert_eq!(back.layers.len(), 2);
    let low = &back.layers[0];
    assert_eq!(low.name, "Низ");
    assert!(!low.visible);
    assert_eq!(low.opacity, 128);
    assert_eq!(low.pixel(0, 0), [0, 0, 255, 128]);
    assert_eq!(low.pixel(0, 3), [0, 0, 255, 128]);
    let m = low.mask.as_ref().expect("mask read");
    assert_eq!(m.width, w);
    assert_eq!(m.data[0], 40);
    assert_eq!(m.data[w * 3], 255);
    let up = &back.layers[1];
    assert_eq!(up.name, "Верх");
    assert_eq!(up.blend, BlendMode::Multiply);
    assert!(up.mask.is_none());
}

#[test]
fn psd_groups_become_sections_and_keep_names() {
    let (w, h) = (4, 4);
    let a = flat(w, h, [255, 255, 0, 255]);
    let b = flat(w, h, [0, 255, 255, 255]);
    let header = flat(w, h, [0, 0, 0, 0]);
    let layers = vec![
        OutLayer {
            name: "Снаружи",
            rgba: &b,
            mask: None,
            opacity: 255,
            visible: true,
            blend: BlendMode::Normal,
            group: None,
            group_header: false,
            group_open: true,
        },
        OutLayer {
            name: "Внутри",
            rgba: &a,
            mask: None,
            opacity: 255,
            visible: true,
            blend: BlendMode::Normal,
            group: Some("Папка"),
            group_header: false,
            group_open: true,
        },
        OutLayer {
            name: "Папка",
            rgba: &header,
            mask: None,
            opacity: 255,
            visible: true,
            blend: BlendMode::Normal,
            group: Some("Папка"),
            group_header: true,
            group_open: true,
        },
    ];
    let merged = flat(w, h, [1, 2, 3, 255]);
    let back = read_file(&write_layers(w, h, &merged, &layers)).expect("groups read");
    let kinds: Vec<LayerKind> = back.layers.iter().map(|l| l.kind).collect();
    assert_eq!(
        kinds,
        vec![LayerKind::Pixel, LayerKind::Bounding, LayerKind::Pixel, LayerKind::GroupOpen],
        "group structure: {:?}",
        kinds
    );
    assert_eq!(back.layers[3].name, "Папка");
    assert_eq!(back.layers[2].name, "Внутри");
    assert_eq!(back.layers[1].pixel(0, 0), [0, 0, 0, 0]);
}

/// The extra-data block of a layer record: no mask, empty blending ranges,
/// the Pascal name padded to four bytes and the UTF-16 name.
fn extra_block(name: &str) -> Vec<u8> {
    let mut out: Vec<u8> = Vec::new();
    out.extend_from_slice(&0u32.to_be_bytes());
    out.extend_from_slice(&0u32.to_be_bytes());
    let mut nm: Vec<u8> = vec![name.len().min(255) as u8];
    nm.extend_from_slice(&name.as_bytes()[..name.len().min(255)]);
    while nm.len() % 4 != 0 {
        nm.push(0);
    }
    out.extend_from_slice(&nm);
    let units: Vec<u16> = name.encode_utf16().collect();
    out.extend_from_slice(b"luni");
    out.extend_from_slice(&((units.len() * 2 + 4) as u32).to_be_bytes());
    out.extend_from_slice(&(units.len() as u32).to_be_bytes());
    for u in units {
        out.extend_from_slice(&u.to_be_bytes());
    }
    out
}

#[test]
fn psd_layer_frame_is_placed_by_its_offset() {
    let (w, h) = (3, 3);
    let mut out: Vec<u8> = Vec::new();
    out.extend_from_slice(b"8BPS");
    out.extend_from_slice(&1u16.to_be_bytes());
    out.extend_from_slice(&[0u8; 6]);
    out.extend_from_slice(&4u16.to_be_bytes());
    out.extend_from_slice(&(h as u32).to_be_bytes());
    out.extend_from_slice(&(w as u32).to_be_bytes());
    out.extend_from_slice(&8u16.to_be_bytes());
    out.extend_from_slice(&3u16.to_be_bytes());
    out.extend_from_slice(&0u32.to_be_bytes());
    out.extend_from_slice(&0u32.to_be_bytes());
    let mut chans: Vec<Vec<u8>> = Vec::new();
    for c in [3usize, 0, 1, 2] {
        let plane: Vec<u8> = (0..4).map(|i| (i * 30 + c * 5) as u8).collect();
        let mut d = vec![0u8, 0];
        d.extend_from_slice(&plane);
        chans.push(d);
    }
    let mut rec: Vec<u8> = Vec::new();
    rec.extend_from_slice(&1i32.to_be_bytes());
    rec.extend_from_slice(&1i32.to_be_bytes());
    rec.extend_from_slice(&3i32.to_be_bytes());
    rec.extend_from_slice(&3i32.to_be_bytes());
    rec.extend_from_slice(&4u16.to_be_bytes());
    for (i, id) in [-1i16, 0, 1, 2].iter().enumerate() {
        rec.extend_from_slice(&id.to_be_bytes());
        rec.extend_from_slice(&(chans[i].len() as u32).to_be_bytes());
    }
    rec.extend_from_slice(b"8BIM");
    rec.extend_from_slice(b"norm");
    rec.extend_from_slice(&[255u8]);
    rec.extend_from_slice(&[0u8]);
    rec.extend_from_slice(&[0u8]);
    rec.extend_from_slice(&[0u8]);
    let extra = extra_block("Сдвинутый");
    rec.extend_from_slice(&(extra.len() as u32).to_be_bytes());
    rec.extend_from_slice(&extra);
    let rec_len = rec.len();
    assert_eq!(rec_len, 116, "length of the layer record");
    let mut body: Vec<u8> = rec;
    for c in &chans {
        body.extend_from_slice(c);
    }
    if body.len() % 2 == 1 {
        body.push(0);
    }
    let mut info: Vec<u8> = Vec::new();
    info.extend_from_slice(&((body.len() + 2) as u32).to_be_bytes());
    info.extend_from_slice(&1u16.to_be_bytes());
    info.extend_from_slice(&body);
    let mut lm: Vec<u8> = Vec::new();
    lm.extend_from_slice(&info);
    lm.extend_from_slice(&0u32.to_be_bytes());
    lm.extend_from_slice(&0u32.to_be_bytes());
    out.extend_from_slice(&(lm.len() as u32).to_be_bytes());
    out.extend_from_slice(&lm);
    out.extend_from_slice(&0u16.to_be_bytes());
    for c in 0..4 {
        for i in 0..9 {
            out.push(if c == 3 { 255 } else { (i + c) as u8 });
        }
    }
    let back = read_file(&out).expect("shifted layer reads");
    assert_eq!(back.layers.len(), 1);
    let l = &back.layers[0];
    assert_eq!((l.left, l.top, l.width, l.height), (1, 1, 2, 2));
    assert_eq!(l.name, "Сдвинутый");
    assert_eq!(l.pixel(1, 1), [90, 95, 100, 105]);
    assert_eq!(l.plane(0), &[0u8, 30, 60, 90][..]);
    assert_eq!(l.plane(7), &[] as &[u8]);
    assert_eq!(l.pixel(2, 0), [0, 0, 0, 0], "outside the frame");
}

#[test]
fn psd_reads_blend_and_hides_unknown_modes() {
    assert_eq!(blend_of(b"norm"), BlendMode::Normal);
    assert_eq!(blend_of(b"mul "), BlendMode::Multiply);
    assert_eq!(blend_of(b"scrn"), BlendMode::Screen);
    assert_eq!(blend_of(b"over"), BlendMode::Overlay);
    assert_eq!(blend_of(b"lin "), BlendMode::Add);
    assert_eq!(blend_of(b"dark"), BlendMode::Darken);
    assert_eq!(blend_of(b"lite"), BlendMode::Lighten);
    assert_eq!(blend_of(b"diff"), BlendMode::Difference);
    assert_eq!(blend_of(b"div "), BlendMode::ColorDodge);
    assert_eq!(blend_of(b"idiv"), BlendMode::ColorBurn);
    assert_eq!(blend_of(b"vivid"), BlendMode::Normal);
    assert_eq!(blend_of(b"sLit"), BlendMode::Normal);
    for m in BlendMode::ALL {
        assert_eq!(blend_of(&blend_key(m)), m, "mode {:?} survived the exchange", m);
    }
}

#[test]
fn blend_keys_are_the_photoshop_keys() {
    assert_eq!(&blend_key(BlendMode::Normal), b"norm");
    assert_eq!(&blend_key(BlendMode::Add), b"lin ");
    assert_eq!(blend_of(b"add "), BlendMode::Add);
    assert_eq!(BlendMode::Multiply.name(), "Умножение");
}

#[test]
fn written_layer_is_framed_by_its_visible_pixels() {
    let (w, h) = (6, 5);
    let mut rgba = vec![0u8; w * h * 4];
    for (x, y, v) in [(2usize, 1usize, 11u8), (4, 3, 22), (3, 2, 33)] {
        let p = (y * w + x) * 4;
        rgba[p] = v;
        rgba[p + 3] = 200;
    }
    rgba[(4 * w) * 4] = 99;
    let empty = vec![0u8; w * h * 4];
    let layers = vec![
        OutLayer {
            name: "Точки",
            rgba: &rgba,
            mask: None,
            opacity: 255,
            visible: true,
            blend: BlendMode::Normal,
            group: None,
            group_header: false,
            group_open: true,
        },
        OutLayer {
            name: "Пусто",
            rgba: &empty,
            mask: None,
            opacity: 255,
            visible: true,
            blend: BlendMode::Normal,
            group: None,
            group_header: false,
            group_open: true,
        },
    ];
    let merged = vec![0u8; w * h * 4];
    let back = read_file(&write_layers(w, h, &merged, &layers)).expect("reads back");
    assert_eq!(back.layers.len(), 2);
    let l = &back.layers[0];
    assert_eq!((l.left, l.top, l.width, l.height), (2, 1, 3, 3));
    assert_eq!(l.kind, LayerKind::Pixel);
    assert!(!l.clipped);
    assert_eq!(l.pixel(0, 0), [11, 0, 0, 200]);
    assert_eq!(l.pixel(2, 2), [22, 0, 0, 200]);
    assert_eq!(l.pixel(1, 1), [33, 0, 0, 200]);
    assert_eq!(l.pixel(1, 0), [0, 0, 0, 0]);
    let e = &back.layers[1];
    assert_eq!((e.left, e.top, e.width, e.height), (0, 0, 1, 1));
}
