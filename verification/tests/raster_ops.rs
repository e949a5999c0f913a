use tpaint::morph::mask_grow;
use tpaint::doc::Layer;
use tpaint::raster::{
    apply_curve, blit_rect, clear_rect, clear_rect_mask, extract_rect, fill_mask_cover, flood_fill, histogram,
    mask_bounds, pick, wand, CurveChannel, RectData,
};

fn empty(w: usize, h: usize) -> Layer {
    Layer::new(w, h, "тест")
}

fn square(l: &mut Layer, w: usize, x0: usize, y0: usize, x1: usize, y1: usize, c: [u8; 4]) {
    for y in y0..y1 {
        for x in x0..x1 {
            l.set(w, x, y, c);
        }
    }
}

#[test]
fn histogram_counts_brightness_and_ignores_transparent() {
    let mut l = empty(4, 1);
    l.set(4, 0, 0, [0, 0, 0, 255]);
    l.set(4, 1, 0, [255, 255, 255, 255]);
    l.set(4, 2, 0, [255, 0, 0, 0]);
    let h = histogram(&l);
    assert_eq!(h[0], 1);
    assert_eq!(h[255], 1);
    assert_eq!(h.iter().sum::<u32>(), 2);
}

#[test]
fn extract_clear_and_blit_round_trip() {
    let (w, h) = (16, 16);
    let mut l = empty(w, h);
    square(&mut l, w, 4, 4, 12, 12, [255, 0, 0, 255]);
    let data = extract_rect(&l, w, h, Some((4, 4, 12, 12)));
    assert_eq!((data.width(), data.height()), (8, 8));
    assert_eq!(&data.pixels[0..4], &[255, 0, 0, 255]);
    clear_rect(&mut l, w, h, Some((4, 4, 12, 12)));
    assert_eq!(l.get(w, 8, 8)[3], 0);
    assert_eq!(l.get(w, 1, 1)[3], 0);
    blit_rect(&mut l, w, h, &data, 0, 0);
    assert_eq!(l.get(w, 3, 3), [255, 0, 0, 255]);
    assert_eq!(l.get(w, 8, 8)[3], 0);
}

#[test]
fn selection_ops_clip_to_canvas() {
    let (w, h) = (8, 8);
    let mut l = empty(w, h);
    square(&mut l, w, 0, 0, 8, 8, [0, 255, 0, 255]);
    let data = extract_rect(&l, w, h, None);
    assert_eq!(data.width(), 0);
    clear_rect(&mut l, w, h, None);
    assert_eq!(l.get(w, 4, 4), [0, 255, 0, 255]);
    let d2 = extract_rect(&l, w, h, Some((0, 0, 4, 4)));
    assert_eq!((d2.width(), d2.height()), (4, 4));
    let frag = RectData { w: 3, h: 3, pixels: vec![9; 36] };
    blit_rect(&mut l, w, h, &frag, -2, 6);
    assert_eq!(l.get(w, 0, 6)[3], 255);
    assert_ne!(l.get(w, 0, 6), [0, 255, 0, 255], "the fragment lands where it overlaps");
    assert_eq!(l.get(w, 1, 6), [0, 255, 0, 255], "left of the fragment's right edge only");
}

#[test]
fn flood_fill_respects_a_wall() {
    let (w, h) = (10, 10);
    let mut l = empty(w, h);
    l.fill([255, 255, 255, 255]);
    for y in 0..h {
        l.set(w, 5, y, [0, 0, 0, 255]);
    }
    flood_fill(&mut l, w, h, 1, 1, [255, 0, 0, 255], 255, true, 0, true);
    assert_eq!(l.get(w, 1, 1), [255, 0, 0, 255]);
    assert_eq!(l.get(w, 8, 1), [255, 255, 255, 255]);
    assert_eq!(l.get(w, 5, 1), [0, 0, 0, 255]);
}

#[test]
fn non_contiguous_fill_replaces_everywhere() {
    let (w, h) = (10, 10);
    let mut l = empty(w, h);
    l.fill([255, 255, 255, 255]);
    for y in 0..h {
        l.set(w, 5, y, [0, 0, 0, 255]);
    }
    flood_fill(&mut l, w, h, 1, 1, [0, 255, 0, 255], 255, true, 0, false);
    assert_eq!(l.get(w, 1, 1), [0, 255, 0, 255]);
    assert_eq!(l.get(w, 8, 1), [0, 255, 0, 255]);
    assert_eq!(l.get(w, 5, 1), [0, 0, 0, 255]);
}

#[test]
fn fill_tolerance_and_no_op_cases() {
    let (w, h) = (4, 1);
    let mut l = empty(w, h);
    l.set(w, 0, 0, [100, 100, 100, 255]);
    l.set(w, 1, 0, [103, 100, 100, 255]);
    l.set(w, 2, 0, [120, 100, 100, 255]);
    let before = l.pixels.clone();
    flood_fill(&mut l, w, h, 0, 0, [100, 100, 100, 255], 255, true, 5, true);
    assert_eq!(l.pixels, before, "filling a pixel with its own opaque colour does nothing");
    flood_fill(&mut l, w, h, 0, 0, [1, 2, 3, 255], 0, false, 5, true);
    assert_eq!(l.pixels, before, "a zero alpha does nothing");
    flood_fill(&mut l, w, h, 9, 0, [1, 2, 3, 255], 255, true, 5, true);
    assert_eq!(l.pixels, before, "a start outside does nothing");
    flood_fill(&mut l, w, h, 0, 0, [1, 2, 3, 255], 200, false, 1, true);
    assert_eq!(l.get(w, 0, 0), [1, 2, 3, 200]);
    assert_eq!(l.get(w, 1, 0), [1, 2, 3, 200], "within four times the tolerance");
    assert_eq!(l.get(w, 2, 0), [120, 100, 100, 255]);
}

#[test]
fn wand_marks_one_region_or_all_alike() {
    let (w, h) = (5, 1);
    let mut l = empty(w, h);
    for x in 0..5 {
        l.set(w, x, 0, [50, 50, 50, 255]);
    }
    l.set(w, 2, 0, [250, 0, 0, 255]);
    let mut mask = vec![0u8; 5];
    wand(&l, &mut mask, w, h, 0, 0, 10, true);
    assert_eq!(mask, vec![255, 255, 0, 0, 0]);
    let mut all = vec![0u8; 5];
    wand(&l, &mut all, w, h, 0, 0, 10, false);
    assert_eq!(all, vec![255, 255, 0, 255, 255]);
    let mut none = vec![7u8; 5];
    wand(&l, &mut none, w, h, -1, 0, 10, false);
    assert_eq!(none, vec![7; 5]);
    let mut transparent = vec![0u8; 5];
    let blank = empty(w, h);
    wand(&blank, &mut transparent, w, h, 4, 0, 0, true);
    assert_eq!(transparent, vec![255; 5], "transparent pixels match each other");
}

#[test]
fn curve_applies_to_the_chosen_channel_only() {
    let mut lut = [0u8; 256];
    for (i, v) in lut.iter_mut().enumerate() {
        *v = if i < 128 { 0 } else { ((i - 128) * 2).min(255) as u8 };
    }
    let mut l = empty(4, 1);
    for x in 0..4 {
        l.set(4, x, 0, [10, 20, 200, 128]);
    }
    let before = l.pixels.clone();
    apply_curve(&mut l, CurveChannel::Blue, &lut);
    assert_eq!(l.get(4, 0, 0)[2], 144);
    let after = l.pixels.clone();
    for i in 0..4 {
        assert_eq!(after[i * 4], before[i * 4]);
        assert_eq!(after[i * 4 + 1], before[i * 4 + 1]);
        assert_eq!(after[i * 4 + 3], before[i * 4 + 3]);
    }
    let mut l2 = empty(4, 1);
    l2.set(4, 0, 0, [10, 220, 200, 255]);
    apply_curve(&mut l2, CurveChannel::Rgb, &lut);
    assert_eq!(l2.get(4, 0, 0), [0, 184, 144, 255]);
}

#[test]
fn masks_clear_and_fill_by_coverage() {
    let (w, h) = (2, 1);
    let mut l = empty(w, h);
    l.fill([10, 10, 10, 200]);
    clear_rect_mask(&mut l, w, h, &[255, 0]);
    assert_eq!(l.get(w, 0, 0)[3], 0);
    assert_eq!(l.get(w, 1, 0)[3], 200);
    let mut m = empty(w, h);
    fill_mask_cover(&mut m, w, h, &[255, 0], [1, 2, 3, 255]);
    assert_eq!(m.get(w, 0, 0), [1, 2, 3, 255]);
    assert_eq!(m.get(w, 1, 0), [0, 0, 0, 0]);
    assert_eq!(pick(&m, w, h, 0, 0), [1, 2, 3, 255]);
    assert_eq!(pick(&m, w, h, 5, 0), [0, 0, 0, 0]);
}

#[test]
fn mask_bounds_frames_the_selection() {
    let mut mask = vec![0u8; 12];
    mask[4 + 1] = 255;
    mask[8 + 2] = 1;
    assert_eq!(mask_bounds(&mask, 4, 3), Some((1, 1, 3, 3)), "any non-zero coverage counts");
    assert_eq!(mask_bounds(&[0u8; 12], 4, 3), None, "an empty mask has no frame");
    assert_eq!(mask_bounds(&[5u8], 1, 1), Some((0, 0, 1, 1)));
}

#[test]
fn mask_shrink_eats_the_canvas_border() {
    let (w, h) = (5usize, 5usize);
    let mut m = vec![255u8; w * h];
    mask_grow(&mut m, w, h, 1, false);
    for y in 0..h {
        for x in 0..w {
            let inner = (1..4).contains(&x) && (1..4).contains(&y);
            assert_eq!(m[y * w + x], if inner { 255 } else { 0 }, "({}, {})", x, y);
        }
    }
}

#[test]
fn mask_grow_spreads_by_a_square() {
    let (w, h) = (7usize, 7usize);
    let mut m = vec![0u8; w * h];
    m[3 * w + 3] = 200;
    m[0] = 8;
    mask_grow(&mut m, w, h, 2, true);
    assert_eq!(m[3 * w + 3], 200, "сама точка не меняется");
    assert_eq!(m[1 * w + 1], 255, "угол квадрата радиуса 2");
    assert_eq!(m[0], 8, "8 — ещё не выделено, и точка слишком далеко");
    assert_eq!(m[0 * w + 3], 0, "на расстоянии 3 по вертикали ничего");
    assert_eq!(m[5 * w + 5], 255);
}
